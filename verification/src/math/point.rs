use vstd::prelude::*;

use crate::math::num::{div_i64_trunc, div_trunc_spec, isqrt, lemma_sqrt_floor_bounds, sqrt_floor};

verus! {

/// The largest coordinate magnitude the geometric predicates accept; it keeps
/// squared distances inside 128-bit intermediates.
pub const COORD_LIMIT: i64 = 1_000_000_000_000_000_000;

/// Both coordinates of `p` are within the supported range.
pub open spec fn coord_bounded(p: Point) -> bool {
    -COORD_LIMIT <= p.x <= COORD_LIMIT && -COORD_LIMIT <= p.y <= COORD_LIMIT
}

/// The squared Euclidean distance between `a` and `b`.
pub open spec fn dist_sq(a: Point, b: Point) -> int {
    (a.x - b.x) * (a.x - b.x) + (a.y - b.y) * (a.y - b.y)
}

/// A 2-D point or displacement with integer coordinates.
#[derive(Debug, Clone, Copy, PartialEq, Eq, Structural)]
pub struct Point {
    pub x: i64,
    pub y: i64,
}

impl Point {
    pub fn new(x: i64, y: i64) -> (r: Point)
        ensures
            r.x == x,
            r.y == y,
    {
        Point { x, y }
    }

    /// Componentwise sum.
    pub fn add(&self, rhs: &Point) -> (r: Point)
        requires
            i64::MIN <= self.x + rhs.x <= i64::MAX,
            i64::MIN <= self.y + rhs.y <= i64::MAX,
        ensures
            r.x == self.x + rhs.x,
            r.y == self.y + rhs.y,
    {
        Point { x: self.x + rhs.x, y: self.y + rhs.y }
    }

    /// Componentwise difference.
    pub fn sub(&self, rhs: &Point) -> (r: Point)
        requires
            i64::MIN <= self.x - rhs.x <= i64::MAX,
            i64::MIN <= self.y - rhs.y <= i64::MAX,
        ensures
            r.x == self.x - rhs.x,
            r.y == self.y - rhs.y,
    {
        Point { x: self.x - rhs.x, y: self.y - rhs.y }
    }

    /// Adds `rhs` onto `self` in place.
    pub fn add_assign(&mut self, rhs: &Point)
        requires
            i64::MIN <= old(self).x + rhs.x <= i64::MAX,
            i64::MIN <= old(self).y + rhs.y <= i64::MAX,
        ensures
            final(self).x == old(self).x + rhs.x,
            final(self).y == old(self).y + rhs.y,
    {
        self.x = self.x + rhs.x;
        self.y = self.y + rhs.y;
    }

    /// Subtracts `rhs` from `self` in place.
    pub fn sub_assign(&mut self, rhs: &Point)
        requires
            i64::MIN <= old(self).x - rhs.x <= i64::MAX,
            i64::MIN <= old(self).y - rhs.y <= i64::MAX,
        ensures
            final(self).x == old(self).x - rhs.x,
            final(self).y == old(self).y - rhs.y,
    {
        self.x = self.x - rhs.x;
        self.y = self.y - rhs.y;
    }

    /// Scales both components by `rhs`.
    pub fn mul(&self, rhs: i64) -> (r: Point)
        requires
            i64::MIN <= self.x * rhs <= i64::MAX,
            i64::MIN <= self.y * rhs <= i64::MAX,
        ensures
            r.x == self.x * rhs,
            r.y == self.y * rhs,
    {
        Point { x: self.x * rhs, y: self.y * rhs }
    }

    /// Divides both components by `rhs`, rounding toward zero.
    pub fn div(&self, rhs: i64) -> (r: Point)
        requires
            rhs != 0,
            self.x > i64::MIN,
            self.y > i64::MIN,
        ensures
            r.x == div_trunc_spec(self.x as int, rhs as int),
            r.y == div_trunc_spec(self.y as int, rhs as int),
    {
        Point { x: div_i64_trunc(self.x, rhs), y: div_i64_trunc(self.y, rhs) }
    }

    /// The dot product of `self` and `rhs`.
    pub fn dot(&self, rhs: &Point) -> (r: i64)
        requires
            i64::MIN <= self.x * rhs.x <= i64::MAX,
            i64::MIN <= self.y * rhs.y <= i64::MAX,
            i64::MIN <= self.x * rhs.x + self.y * rhs.y <= i64::MAX,
        ensures
            r == self.x * rhs.x + self.y * rhs.y,
    {
        self.x * rhs.x + self.y * rhs.y
    }

    /// The squared distance from `self` to `other`, computed in a wide
    /// intermediate so bounded coordinates can never overflow.
    pub fn dist_sq_to(&self, other: &Point) -> (r: i128)
        requires
            coord_bounded(*self),
            coord_bounded(*other),
        ensures
            r == dist_sq(*self, *other),
            r >= 0,
    {
        let dx: i128 = self.x as i128 - other.x as i128;
        let dy: i128 = self.y as i128 - other.y as i128;
        proof {
            crate::math::num::lemma_mul_bound(dx as int, dx as int, 2 * COORD_LIMIT);
            crate::math::num::lemma_mul_bound(dy as int, dy as int, 2 * COORD_LIMIT);
            assert(dx * dx >= 0 && dy * dy >= 0) by (nonlinear_arith);
        }
        dx * dx + dy * dy
    }

    /// The length of the vector, rounded down to a whole number.
    pub fn magnitude(&self) -> (r: i64)
        requires
            self.x * self.x + self.y * self.y <= i64::MAX,
        ensures
            r == sqrt_floor((self.x * self.x + self.y * self.y) as nat),
            r >= 0,
    {
        proof {
            assert(self.x * self.x >= 0 && self.y * self.y >= 0) by (nonlinear_arith);
        }
        let d = self.dot(self);
        let s = isqrt(d as u128);
        proof {
            lemma_sqrt_floor_bounds(d as nat);
            assert(s * s <= d as nat);
            assert(s <= 0x1_0000_0000) by (nonlinear_arith)
                requires
                    s * s <= i64::MAX,
        ;
        }
        s as i64
    }
}

} // verus!
