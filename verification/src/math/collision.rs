use vstd::prelude::*;

use crate::math::circle::Circle;
use crate::math::num::{
    div_trunc_spec, isqrt, lemma_mul_bound, lemma_mul_bounds, lemma_sqrt_floor_bounds, sqrt_floor,
    Ratio,
};
use crate::math::point::{coord_bounded, dist_sq, Point};
use crate::math::rect::{max64, min64, Line, Rect};

verus! {

/// The largest coordinate, radius or velocity magnitude the continuous
/// collision math accepts; it keeps the quadratic discriminant inside
/// 128-bit intermediates and the resulting ratio inside machine words.
pub const COLL_LIMIT: i64 = 100_000_000;

/// The largest time budget (in ratio numerator units) a sweep query accepts.
pub const TIME_LIMIT: i64 = 1_000_000_000;

/// Both components of `p` are small enough for the collision math.
pub open spec fn point_in_range(p: Point) -> bool {
    -COLL_LIMIT <= p.x <= COLL_LIMIT && -COLL_LIMIT <= p.y <= COLL_LIMIT
}

/// The circle's center and radius are small enough for the collision math.
pub open spec fn circle_in_range(c: Circle) -> bool {
    point_in_range(c.pos) && -COLL_LIMIT <= c.radius <= COLL_LIMIT
}

/// The earliest parametric offset along the infinite `line` at which it
/// touches the boundary of `circle`, or `None` when they never meet.
///
/// Substituting the line's parametric form into the circle equation gives
/// `a*t*t + b*t + c == 0`; a negative discriminant (or a degenerate zero
/// direction, where `a == 0`) means no intersection. Otherwise the root with
/// the smaller magnitude is returned: `(-b - s) / (2*a)` when `-b` is at
/// least the real square root of the discriminant, else `(-b + s) / (2*a)`,
/// where `s` is the discriminant's square root rounded down. The result is
/// exact whenever the discriminant is a perfect square — in particular in
/// the tangent case, where the two roots coincide.
pub open spec fn spec_collides(circle: Circle, line: Line) -> Option<Ratio> {
    let dx = line.pos.x - circle.pos.x;
    let dy = line.pos.y - circle.pos.y;
    let a = line.direction.x * line.direction.x + line.direction.y * line.direction.y;
    let b = 2 * (dx * line.direction.x + dy * line.direction.y);
    let c = dx * dx + dy * dy - circle.radius * circle.radius;
    if a == 0 {
        None
    } else {
        let disc = b * b - 4 * (a * c);
        if disc < 0 {
            None
        } else {
            let s = sqrt_floor(disc as nat) as int;
            let num = if b <= 0 && b * b >= disc {
                -b - s
            } else {
                -b + s
            };
            Some(Ratio { num: num as i64, den: (2 * a) as i64 })
        }
    }
}

/// Solves the circle-line intersection exactly over the integers; see
/// `spec_collides` for the full statement of the result.
pub fn collides(circle: &Circle, line: &Line) -> (r: Option<Ratio>)
    requires
        circle_in_range(*circle),
        point_in_range(line.pos),
        point_in_range(line.direction),
    ensures
        r == spec_collides(*circle, *line),
        r is Some ==> r->0.wf(),
{
    let dx: i128 = line.pos.x as i128 - circle.pos.x as i128;
    let dy: i128 = line.pos.y as i128 - circle.pos.y as i128;
    let ddx: i128 = line.direction.x as i128;
    let ddy: i128 = line.direction.y as i128;
    proof {
        lemma_mul_bound(ddx as int, ddx as int, COLL_LIMIT as int);
        lemma_mul_bound(ddy as int, ddy as int, COLL_LIMIT as int);
        lemma_mul_bounds(dx as int, 2 * COLL_LIMIT, ddx as int, COLL_LIMIT as int);
        lemma_mul_bounds(dy as int, 2 * COLL_LIMIT, ddy as int, COLL_LIMIT as int);
        lemma_mul_bound(dx as int, dx as int, 2 * COLL_LIMIT);
        lemma_mul_bound(dy as int, dy as int, 2 * COLL_LIMIT);
        lemma_mul_bound(circle.radius as int, circle.radius as int, COLL_LIMIT as int);
        assert(ddx * ddx >= 0 && ddy * ddy >= 0 && dx * dx >= 0 && dy * dy >= 0)
            by (nonlinear_arith);
    }
    let a: i128 = ddx * ddx + ddy * ddy;
    let b: i128 = 2 * (dx * ddx + dy * ddy);
    let c: i128 = dx * dx + dy * dy - (circle.radius as i128) * (circle.radius as i128);
    if a == 0 {
        return None;
    }
    proof {
        lemma_mul_bound(b as int, b as int, 80_000_000_000_000_000);
        lemma_mul_bounds(a as int, 20_000_000_000_000_000, c as int, 90_000_000_000_000_000);
    }
    let disc: i128 = b * b - 4 * (a * c);
    if disc < 0 {
        return None;
    }
    let s_wide: u128 = isqrt(disc as u128);
    proof {
        lemma_sqrt_floor_bounds(disc as nat);
        assert(s_wide * s_wide <= disc as nat);
        assert(s_wide as int <= 120_000_000_000_000_000) by (nonlinear_arith)
            requires
                s_wide * s_wide <= 13_600_000_000_000_000_000_000_000_000_000_000,
                s_wide >= 0,
        ;
    }
    let s: i128 = s_wide as i128;
    let num: i128 = if b <= 0 && b * b >= disc {
        -b - s
    } else {
        -b + s
    };
    Some(Ratio { num: num as i64, den: (2 * a) as i64 })
}

/// Velocities and radii handed to the circle-pair sweeps stay in the half
/// range, so that relative velocities and radius sums stay in range.
pub const COLL_HALF: i64 = 50_000_000;

/// `x` is small enough to be summed or subtracted without leaving the
/// collision range.
pub open spec fn in_half_range(x: i64) -> bool {
    -COLL_HALF <= x <= COLL_HALF
}

/// A moving circle acceptable to the pair sweeps: center in range, radius
/// and velocity components in the half range.
pub open spec fn mover_in_range(c: Circle, v: Point) -> bool {
    point_in_range(c.pos) && in_half_range(c.radius) && in_half_range(v.x) && in_half_range(v.y)
}

/// Continuous circle-versus-circle collision, reduced to the circle-line
/// case by the Minkowski sum: circle 1 inflated by circle 2's radius,
/// against the line from circle 2's center along the relative velocity.
pub open spec fn spec_collides_circle(c1: Circle, v1: Point, c2: Circle, v2: Point) -> Option<
    Ratio,
> {
    spec_collides(
        Circle { pos: c1.pos, radius: (c1.radius + c2.radius) as i64 },
        Line {
            pos: c2.pos,
            direction: Point { x: (v2.x - v1.x) as i64, y: (v2.y - v1.y) as i64 },
        },
    )
}

/// The offset along the relative motion at which the two moving circles
/// first touch, or `None` when they never do; see `spec_collides_circle`.
pub fn collides_circle(circle1: (&Circle, &Point), circle2: (&Circle, &Point)) -> (r: Option<
    Ratio,
>)
    requires
        mover_in_range(*circle1.0, *circle1.1),
        mover_in_range(*circle2.0, *circle2.1),
    ensures
        r == spec_collides_circle(*circle1.0, *circle1.1, *circle2.0, *circle2.1),
        r is Some ==> r->0.wf(),
{
    let inflated = Circle {
        pos: circle1.0.pos,
        radius: circle1.0.radius + circle2.0.radius,
    };
    let line = Line {
        pos: circle2.0.pos,
        direction: Point { x: circle2.1.x - circle1.1.x, y: circle2.1.y - circle1.1.y },
    };
    collides(&inflated, &line)
}

/// `spec_collides_circle`, with every result outside `[0, time]` rejected.
pub open spec fn spec_collides_before(
    c1: Circle,
    v1: Point,
    c2: Circle,
    v2: Point,
    time: Ratio,
) -> Option<Ratio> {
    match spec_collides_circle(c1, v1, c2, v2) {
        Option::None => Option::None,
        Option::Some(t) => if t.num < 0 || !Ratio::spec_le(t, time) {
            Option::None
        } else {
            Option::Some(t)
        },
    }
}

/// The time at which the two moving circles first touch, or `None` when
/// that time does not fall within this tick's budget `[0, time]`.
pub fn collides_before(
    circle1: (&Circle, &Point),
    circle2: (&Circle, &Point),
    time: Ratio,
) -> (r: Option<Ratio>)
    requires
        mover_in_range(*circle1.0, *circle1.1),
        mover_in_range(*circle2.0, *circle2.1),
        time.wf(),
    ensures
        r == spec_collides_before(*circle1.0, *circle1.1, *circle2.0, *circle2.1, time),
        r is Some ==> r->0.wf(),
{
    let collides_at = collides_circle(circle1, circle2);
    match collides_at {
        Option::None => Option::None,
        Option::Some(t) => {
            if t.is_negative() || !t.le(&time) {
                Option::None
            } else {
                Option::Some(t)
            }
        },
    }
}

/// The box swept by a moving circle over `time`: it spans the current
/// center and the center displaced by `velocity * time` (each axis rounded
/// toward zero), padded by the radius on every side.
pub open spec fn spec_swept_rect(c: Circle, v: Point, time: Ratio) -> Rect {
    let ex = (c.pos.x + div_trunc_spec(v.x * time.num, time.den as int)) as i64;
    let ey = (c.pos.y + div_trunc_spec(v.y * time.num, time.den as int)) as i64;
    Rect {
        bottom_left: Point {
            x: (min64(c.pos.x, ex) - c.radius) as i64,
            y: (min64(c.pos.y, ey) - c.radius) as i64,
        },
        top_right: Point {
            x: (max64(c.pos.x, ex) + c.radius) as i64,
            y: (max64(c.pos.y, ey) + c.radius) as i64,
        },
    }
}

/// Builds the swept box of one moving circle; see `spec_swept_rect`.
fn swept_rect(c: &Circle, v: &Point, time: Ratio) -> (r: Rect)
    requires
        mover_in_range(*c, *v),
        time.wf(),
        -TIME_LIMIT <= time.num <= TIME_LIMIT,
    ensures
        r == spec_swept_rect(*c, *v, time),
{
    proof {
        lemma_mul_bounds(v.x as int, COLL_HALF as int, time.num as int, TIME_LIMIT as int);
        lemma_mul_bounds(v.y as int, COLL_HALF as int, time.num as int, TIME_LIMIT as int);
        crate::math::num::lemma_div_trunc_range(v.x * time.num, time.den as int);
        crate::math::num::lemma_div_trunc_range(v.y * time.num, time.den as int);
    }
    let wx: i128 = (v.x as i128) * (time.num as i128);
    let wy: i128 = (v.y as i128) * (time.num as i128);
    let dispx = crate::math::num::div_trunc(wx, time.den as i128);
    let dispy = crate::math::num::div_trunc(wy, time.den as i128);
    let ex = c.pos.x + dispx as i64;
    let ey = c.pos.y + dispy as i64;
    let mut swept = Rect::new_valid(c.pos, Point { x: ex, y: ey });
    swept.grow(c.radius, c.radius);
    swept
}

/// Coarse pre-check for a pair of moving circles: their swept boxes over
/// `[0, time]` overlap. A `false` answer cheaply rules the exact quadratic
/// test out; a `true` answer says nothing more than "possibly".
pub fn may_collide(
    circle1: (&Circle, &Point),
    circle2: (&Circle, &Point),
    time: Ratio,
) -> (r: bool)
    requires
        mover_in_range(*circle1.0, *circle1.1),
        mover_in_range(*circle2.0, *circle2.1),
        time.wf(),
        -TIME_LIMIT <= time.num <= TIME_LIMIT,
    ensures
        r == Rect::spec_collides(
            spec_swept_rect(*circle1.0, *circle1.1, time),
            spec_swept_rect(*circle2.0, *circle2.1, time),
        ),
{
    let rect1 = swept_rect(circle1.0, circle1.1, time);
    let rect2 = swept_rect(circle2.0, circle2.1, time);
    rect1.collides(&rect2)
}

/// Whether the circle overlaps the box: the point of the box closest to the
/// circle's center lies in the closed disc. This is the plain overlap test
/// the grid queries use (touching counts).
pub open spec fn spec_collides_rect(c: Circle, r: Rect) -> bool {
    let px = crate::math::num::clamp64(c.pos.x, r.bottom_left.x, r.top_right.x);
    let py = crate::math::num::clamp64(c.pos.y, r.bottom_left.y, r.top_right.y);
    dist_sq(c.pos, Point { x: px, y: py }) <= c.radius * c.radius
}

/// A circle overlapping a box also overlaps it as boxes: the circle's own
/// bounding box meets the queried box. This is what lets a grid prune by a
/// union of member boxes.
pub proof fn lemma_collides_rect_within_box(c: Circle, rect: Rect)
    requires
        rect.is_valid(),
        c.bounded(),
        c.radius >= 0,
        spec_collides_rect(c, rect),
    ensures
        Rect::spec_collides(
            Rect {
                bottom_left: Point {
                    x: (c.pos.x - c.radius) as i64,
                    y: (c.pos.y - c.radius) as i64,
                },
                top_right: Point {
                    x: (c.pos.x + c.radius) as i64,
                    y: (c.pos.y + c.radius) as i64,
                },
            },
            rect,
        ),
{
    let px = crate::math::num::clamp64(c.pos.x, rect.bottom_left.x, rect.top_right.x);
    let py = crate::math::num::clamp64(c.pos.y, rect.bottom_left.y, rect.top_right.y);
    let dx = c.pos.x - px;
    let dy = c.pos.y - py;
    assert(-c.radius <= dx <= c.radius && -c.radius <= dy <= c.radius) by (nonlinear_arith)
        requires
            dx * dx + dy * dy <= c.radius * c.radius,
            c.radius >= 0,
    ;
}

/// Exact circle-versus-box overlap over the closest point of the box.
pub fn collides_rect(circle: &Circle, rect: &Rect) -> (r: bool)
    requires
        rect.is_valid(),
        coord_bounded(rect.bottom_left),
        coord_bounded(rect.top_right),
        coord_bounded(circle.pos),
        -crate::math::point::COORD_LIMIT <= circle.radius <= crate::math::point::COORD_LIMIT,
    ensures
        r == spec_collides_rect(*circle, *rect),
{
    let px = crate::math::num::clamp_i64(circle.pos.x, rect.bottom_left.x, rect.top_right.x);
    let py = crate::math::num::clamp_i64(circle.pos.y, rect.bottom_left.y, rect.top_right.y);
    let closest = Point { x: px, y: py };
    let d_sq = circle.pos.dist_sq_to(&closest);
    let rad: i128 = circle.radius as i128;
    proof {
        lemma_mul_bound(rad as int, rad as int, crate::math::point::COORD_LIMIT as int);
    }
    d_sq <= rad * rad
}

} // verus!
