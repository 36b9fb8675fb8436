use vstd::prelude::*;

use crate::math::num::div_trunc_spec;
use crate::math::point::Point;

verus! {

/// An axis-aligned box, stored as its bottom-left and top-right corners.
#[derive(Debug, Clone, Copy, PartialEq, Eq, Structural)]
pub struct Rect {
    pub bottom_left: Point,
    pub top_right: Point,
}

/// An infinite line through `pos` along `direction`.
#[derive(Debug, Clone, Copy, PartialEq, Eq, Structural)]
pub struct Line {
    pub pos: Point,
    pub direction: Point,
}

/// The smaller of two coordinates.
pub open spec fn min64(a: i64, b: i64) -> i64 {
    if a <= b {
        a
    } else {
        b
    }
}

/// The larger of two coordinates.
pub open spec fn max64(a: i64, b: i64) -> i64 {
    if a >= b {
        a
    } else {
        b
    }
}

impl Rect {
    /// A box is valid when each low corner is at most its high corner.
    /// The empty sentinel is deliberately not valid.
    pub open spec fn is_valid(&self) -> bool {
        self.bottom_left.x <= self.top_right.x && self.bottom_left.y <= self.top_right.y
    }

    /// The sentinel box that absorbs into any box it is merged with.
    pub open spec fn spec_empty() -> Rect {
        Rect {
            bottom_left: Point { x: i64::MAX, y: i64::MAX },
            top_right: Point { x: i64::MIN, y: i64::MIN },
        }
    }

    /// The pointwise union of two boxes: the least box containing both.
    pub open spec fn spec_merge(a: Rect, b: Rect) -> Rect {
        Rect {
            bottom_left: Point {
                x: min64(a.bottom_left.x, b.bottom_left.x),
                y: min64(a.bottom_left.y, b.bottom_left.y),
            },
            top_right: Point {
                x: max64(a.top_right.x, b.top_right.x),
                y: max64(a.top_right.y, b.top_right.y),
            },
        }
    }

    /// `outer` contains every point of `inner` (the empty sentinel is
    /// contained in everything).
    pub open spec fn spec_contains(outer: Rect, inner: Rect) -> bool {
        outer.bottom_left.x <= inner.bottom_left.x && outer.bottom_left.y <= inner.bottom_left.y
            && inner.top_right.x <= outer.top_right.x && inner.top_right.y <= outer.top_right.y
    }

    /// The closed projections of the two boxes overlap on both axes.
    pub open spec fn spec_collides(a: Rect, b: Rect) -> bool {
        a.bottom_left.x <= b.top_right.x && a.top_right.x >= b.bottom_left.x
            && a.bottom_left.y <= b.top_right.y && a.top_right.y >= b.bottom_left.y
    }

    /// Builds the box with the given corners, stored exactly as given.
    /// Callers must pass an ordered pair; `new_valid` normalizes instead.
    pub fn new(bottom_left: Point, top_right: Point) -> (r: Rect)
        ensures
            r.bottom_left == bottom_left,
            r.top_right == top_right,
    {
        Rect { bottom_left, top_right }
    }

    /// Builds a valid box from two arbitrary corner points, taking the
    /// minimum and maximum per axis.
    pub fn new_valid(p1: Point, p2: Point) -> (r: Rect)
        ensures
            r.bottom_left.x == min64(p1.x, p2.x),
            r.bottom_left.y == min64(p1.y, p2.y),
            r.top_right.x == max64(p1.x, p2.x),
            r.top_right.y == max64(p1.y, p2.y),
            r.is_valid(),
    {
        let left = if p1.x <= p2.x { p1.x } else { p2.x };
        let right = if p1.x >= p2.x { p1.x } else { p2.x };
        let bottom = if p1.y <= p2.y { p1.y } else { p2.y };
        let top = if p1.y >= p2.y { p1.y } else { p2.y };
        Rect {
            bottom_left: Point { x: left, y: bottom },
            top_right: Point { x: right, y: top },
        }
    }

    /// The sentinel whose corners are inverted extremes: merging it with any
    /// box yields that box, and it collides with no box whose corners stay
    /// strictly inside the coordinate range.
    pub fn new_empty() -> (r: Rect)
        ensures
            r == Rect::spec_empty(),
    {
        Rect {
            bottom_left: Point { x: i64::MAX, y: i64::MAX },
            top_right: Point { x: i64::MIN, y: i64::MIN },
        }
    }

    /// Expands the box symmetrically by `x` and `y` on the two axes.
    pub fn grow(&mut self, x: i64, y: i64)
        requires
            i64::MIN <= old(self).bottom_left.x - x <= i64::MAX,
            i64::MIN <= old(self).bottom_left.y - y <= i64::MAX,
            i64::MIN <= old(self).top_right.x + x <= i64::MAX,
            i64::MIN <= old(self).top_right.y + y <= i64::MAX,
        ensures
            final(self).bottom_left.x == old(self).bottom_left.x - x,
            final(self).bottom_left.y == old(self).bottom_left.y - y,
            final(self).top_right.x == old(self).top_right.x + x,
            final(self).top_right.y == old(self).top_right.y + y,
    {
        let delta = Point { x, y };
        self.bottom_left.sub_assign(&delta);
        self.top_right.add_assign(&delta);
    }

    /// Widens `self` in place to the union of `self` and `other`; the empty
    /// sentinel absorbs into `other` unchanged.
    pub fn merge(&mut self, other: &Rect)
        ensures
            *final(self) == Rect::spec_merge(*old(self), *other),
    {
        if other.bottom_left.x < self.bottom_left.x {
            self.bottom_left.x = other.bottom_left.x;
        }
        if other.bottom_left.y < self.bottom_left.y {
            self.bottom_left.y = other.bottom_left.y;
        }
        if other.top_right.x > self.top_right.x {
            self.top_right.x = other.top_right.x;
        }
        if other.top_right.y > self.top_right.y {
            self.top_right.y = other.top_right.y;
        }
    }

    /// Whether the two boxes' closed projections overlap on both axes;
    /// touching edges count as colliding.
    pub fn collides(&self, other: &Rect) -> (r: bool)
        ensures
            r == Rect::spec_collides(*self, *other),
    {
        self.bottom_left.x <= other.top_right.x && self.top_right.x >= other.bottom_left.x
            && self.bottom_left.y <= other.top_right.y && self.top_right.y >= other.bottom_left.y
    }

    /// Width and height as a point.
    pub fn size(&self) -> (r: Point)
        requires
            i64::MIN <= self.top_right.x - self.bottom_left.x <= i64::MAX,
            i64::MIN <= self.top_right.y - self.bottom_left.y <= i64::MAX,
        ensures
            r.x == self.top_right.x - self.bottom_left.x,
            r.y == self.top_right.y - self.bottom_left.y,
    {
        Point { x: self.top_right.x - self.bottom_left.x, y: self.top_right.y - self.bottom_left.y }
    }

    /// The corner opposite `bottom_right`.
    pub fn top_left(&self) -> (r: Point)
        ensures
            r.x == self.bottom_left.x,
            r.y == self.top_right.y,
    {
        Point { x: self.bottom_left.x, y: self.top_right.y }
    }

    /// The corner opposite `top_left`.
    pub fn bottom_right(&self) -> (r: Point)
        ensures
            r.x == self.top_right.x,
            r.y == self.bottom_left.y,
    {
        Point { x: self.top_right.x, y: self.bottom_left.y }
    }

    /// The midpoint of the box, each axis rounded toward zero.
    pub open spec fn spec_center(r: Rect) -> Point {
        Point {
            x: div_trunc_spec(r.bottom_left.x + r.top_right.x, 2) as i64,
            y: div_trunc_spec(r.bottom_left.y + r.top_right.y, 2) as i64,
        }
    }

    /// The midpoint of the box, each axis rounded toward zero.
    pub fn center(&self) -> (r: Point)
        ensures
            r == Rect::spec_center(*self),
            r.x == div_trunc_spec(self.bottom_left.x + self.top_right.x, 2),
            r.y == div_trunc_spec(self.bottom_left.y + self.top_right.y, 2),
    {
        let sx: i128 = self.bottom_left.x as i128 + self.top_right.x as i128;
        let sy: i128 = self.bottom_left.y as i128 + self.top_right.y as i128;
        let cx = crate::math::num::div_trunc(sx, 2);
        let cy = crate::math::num::div_trunc(sy, 2);
        proof {
            crate::math::num::lemma_div_trunc_range(sx as int, 2);
            crate::math::num::lemma_div_trunc_range(sy as int, 2);
        }
        Point { x: cx as i64, y: cy as i64 }
    }
}

/// Law: merging yields a box containing both operands, no box containing both
/// is smaller, and the empty sentinel is the union's neutral element.
pub proof fn lemma_merge_is_union(a: Rect, b: Rect)
    ensures
        Rect::spec_contains(Rect::spec_merge(a, b), a),
        Rect::spec_contains(Rect::spec_merge(a, b), b),
        forall|c: Rect|
            Rect::spec_contains(c, a) && Rect::spec_contains(c, b) ==> Rect::spec_contains(
                c,
                Rect::spec_merge(a, b),
            ),
        Rect::spec_merge(Rect::spec_empty(), b) == b,
{
}

/// Anything colliding with a contained box collides with its container.
pub proof fn lemma_collides_through_container(outer: Rect, inner: Rect, q: Rect)
    requires
        Rect::spec_contains(outer, inner),
        Rect::spec_collides(inner, q),
    ensures
        Rect::spec_collides(outer, q),
{
}

/// Law: box overlap is symmetric.
pub proof fn lemma_collides_symmetric(a: Rect, b: Rect)
    ensures
        Rect::spec_collides(a, b) == Rect::spec_collides(b, a),
{
}

/// Law: two valid boxes sharing a vertical edge, with overlapping vertical
/// extents, count as colliding even though the overlap has zero width.
pub proof fn lemma_touching_edges_collide(a: Rect, b: Rect)
    requires
        a.is_valid(),
        b.is_valid(),
        a.top_right.x == b.bottom_left.x,
        a.bottom_left.y <= b.top_right.y,
        b.bottom_left.y <= a.top_right.y,
    ensures
        Rect::spec_collides(a, b),
{
}

/// Law: the empty sentinel collides with no box whose corners stay strictly
/// inside the coordinate extremes.
pub proof fn lemma_empty_collides_nothing(b: Rect)
    requires
        b.top_right.x < i64::MAX || b.bottom_left.x > i64::MIN,
    ensures
        !Rect::spec_collides(Rect::spec_empty(), b),
{
}

impl Line {
    pub fn new(pos: Point, direction: Point) -> (r: Line)
        ensures
            r.pos == pos,
            r.direction == direction,
    {
        Line { pos, direction }
    }

    /// The line through `p1` and `p2`, with `p1` as its origin so that the
    /// parametric offsets 0 and 1 land on the two points.
    pub fn through(p1: Point, p2: Point) -> (r: Line)
        requires
            i64::MIN <= p2.x - p1.x <= i64::MAX,
            i64::MIN <= p2.y - p1.y <= i64::MAX,
        ensures
            r.pos == p1,
            r.direction.x == p2.x - p1.x,
            r.direction.y == p2.y - p1.y,
    {
        let direction = p2.sub(&p1);
        Line { pos: p1, direction }
    }
}

} // verus!
