use vstd::prelude::*;

use crate::math::num::lemma_mul_bound;
use crate::math::point::{coord_bounded, dist_sq, Point, COORD_LIMIT};

verus! {

/// A circular shape: a center position and a radius.
#[derive(Debug, Clone, Copy, PartialEq, Eq, Structural)]
pub struct Circle {
    pub pos: Point,
    pub radius: i64,
}

impl Circle {
    /// The circle's center and radius stay within the supported coordinate
    /// range.
    pub open spec fn bounded(&self) -> bool {
        coord_bounded(self.pos) && -COORD_LIMIT <= self.radius <= COORD_LIMIT
    }

    /// The predicate `collides` decides: the centers are at least the two
    /// radii apart. Note that this holds for circles that are far apart or
    /// exactly touching — the inverse of overlap; see `collides` below.
    pub open spec fn spec_collides(a: Circle, b: Circle) -> bool {
        (a.radius + b.radius) * (a.radius + b.radius) <= dist_sq(a.pos, b.pos)
    }

    /// `a` strictly encloses `b`: the radii differ by more than the distance
    /// between the centers.
    pub open spec fn spec_contains(a: Circle, b: Circle) -> bool {
        a.radius - b.radius > 0 && (a.radius - b.radius) * (a.radius - b.radius) > dist_sq(
            a.pos,
            b.pos,
        )
    }

    /// `p` lies in the closed disc of `c`.
    pub open spec fn spec_contains_pos(c: Circle, p: Point) -> bool {
        dist_sq(c.pos, p) <= c.radius * c.radius
    }

    pub fn new_from_pos(pos: Point, radius: i64) -> (r: Circle)
        ensures
            r.pos == pos,
            r.radius == radius,
    {
        Circle { pos, radius }
    }

    pub fn new(x: i64, y: i64, radius: i64) -> (r: Circle)
        ensures
            r.pos.x == x,
            r.pos.y == y,
            r.radius == radius,
    {
        Circle::new_from_pos(Point { x, y }, radius)
    }

    /// True when the squared distance between the centers is at least the
    /// squared sum of the radii — that is, for circles far apart or exactly
    /// touching, not overlapping ones. Note the polarity: this is a
    /// separation test, the inverse of overlap. Query paths that need plain
    /// overlap use `collision::collides_rect` instead.
    pub fn collides(&self, other: &Circle) -> (r: bool)
        requires
            self.bounded(),
            other.bounded(),
        ensures
            r == Circle::spec_collides(*self, *other),
    {
        let d_sq = self.pos.dist_sq_to(&other.pos);
        let r_sum: i128 = self.radius as i128 + other.radius as i128;
        proof {
            lemma_mul_bound(r_sum as int, r_sum as int, 2 * COORD_LIMIT);
        }
        r_sum * r_sum <= d_sq
    }

    /// True when `pos` lies in the closed disc.
    pub fn contains_pos(&self, pos: &Point) -> (r: bool)
        requires
            self.bounded(),
            coord_bounded(*pos),
        ensures
            r == Circle::spec_contains_pos(*self, *pos),
    {
        let d_sq = self.pos.dist_sq_to(pos);
        let rad: i128 = self.radius as i128;
        proof {
            lemma_mul_bound(rad as int, rad as int, COORD_LIMIT as int);
        }
        d_sq <= rad * rad
    }

    /// True when `self` fully encloses `other`: the difference of the radii
    /// exceeds the distance between the centers.
    pub fn contains(&self, other: &Circle) -> (r: bool)
        requires
            self.bounded(),
            other.bounded(),
        ensures
            r == Circle::spec_contains(*self, *other),
    {
        let r_diff: i128 = self.radius as i128 - other.radius as i128;
        if r_diff <= 0 {
            return false;
        }
        let d_sq = self.pos.dist_sq_to(&other.pos);
        proof {
            lemma_mul_bound(r_diff as int, r_diff as int, 2 * COORD_LIMIT);
        }
        r_diff * r_diff > d_sq
    }
}

} // verus!
