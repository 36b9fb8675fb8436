use vstd::prelude::*;

use crate::math::circle::Circle;
use crate::math::num::{
    div_trunc, div_trunc_spec, lemma_div_trunc_range, lemma_mul_bounds, sqrt_floor, MILLI,
};
use crate::math::point::Point;
use crate::math::rect::{max64, min64, Rect};

verus! {

/// Identifies a body; unique among live bodies and stable over a body's
/// lifetime.
pub type BlobId = u32;

/// The mass every new body starts with.
pub const DEFAULT_MASS: i64 = 13;

/// Linear drag strength: one fifth of speed squared, per unit mass.
pub const LINEAR_DRAG_DEN: i64 = 5;

/// Angular drag strength against positive angular velocity.
pub const ANGULAR_DRAG: i64 = 1000;

/// The largest position or radius magnitude the integrator accepts.
pub const POS_LIMIT: i64 = 1_000_000_000;

/// The largest velocity component magnitude the integrator accepts.
pub const VEL_LIMIT: i64 = 1_000_000;

/// The largest mass the integrator accepts.
pub const MASS_LIMIT: i64 = 1_000_000;

/// The largest accumulated force component magnitude the integrator accepts.
pub const FORCE_LIMIT: i64 = 1_000_000_000_000_000;

/// The largest time step, in milliseconds, the integrator accepts.
pub const DT_LIMIT: i64 = 1000;

/// The largest rotation magnitude, in milliradians, the integrator accepts.
pub const ROT_LIMIT: i64 = 1_000_000_000_000;

/// A controllable simulated body: a circular shape with semi-implicit Euler
/// linear and angular state. Forces accumulate between ticks and are
/// cleared by each `update`.
///
/// Units are fixed-point decimal: positions and radii in world units,
/// velocities in units per second, rotations in milliradians, time steps in
/// milliseconds.
#[derive(Debug, Clone, Copy, PartialEq, Eq, Structural)]
pub struct Blob {
    pub id: BlobId,
    pub circle: Circle,
    pub mass: i64,
    pub velocity: Point,
    pub force: Point,
    pub rotation: i64,
    pub angular_velocity: i64,
    pub angular_force: i64,
    pub collision_aabb: Rect,
}

/// The state bounds under which one integration step stays exact: positive
/// bounded mass, and every component within its documented limit.
pub open spec fn update_ready(b: Blob, dt: int) -> bool {
    &&& 1 <= b.mass <= MASS_LIMIT
    &&& 0 <= dt <= DT_LIMIT
    &&& -POS_LIMIT <= b.circle.pos.x <= POS_LIMIT
    &&& -POS_LIMIT <= b.circle.pos.y <= POS_LIMIT
    &&& 0 <= b.circle.radius <= POS_LIMIT
    &&& -VEL_LIMIT <= b.velocity.x <= VEL_LIMIT
    &&& -VEL_LIMIT <= b.velocity.y <= VEL_LIMIT
    &&& -FORCE_LIMIT <= b.force.x <= FORCE_LIMIT
    &&& -FORCE_LIMIT <= b.force.y <= FORCE_LIMIT
    &&& -FORCE_LIMIT <= b.angular_force <= FORCE_LIMIT
    &&& -VEL_LIMIT <= b.angular_velocity <= VEL_LIMIT
    &&& -ROT_LIMIT <= b.rotation <= ROT_LIMIT
}

/// The body's speed: the length of its velocity, rounded down.
pub open spec fn spec_speed(b: Blob) -> int {
    sqrt_floor((b.velocity.x * b.velocity.x + b.velocity.y * b.velocity.y) as nat) as int
}

/// One integration step of `update`, as a function of the old state:
/// linear drag against the current velocity, angular drag against positive
/// angular velocity, acceleration from the accumulated forces, the swept
/// box over the coming motion, then position, rotation and the force reset.
/// Every division rounds toward zero.
pub open spec fn spec_update(b: Blob, dt: int) -> Blob {
    let speed = spec_speed(b);
    let fx = if speed > 0 {
        b.force.x - div_trunc_spec(
            ((b.velocity.x * speed) * b.mass) * dt,
            LINEAR_DRAG_DEN * MILLI,
        )
    } else {
        b.force.x as int
    };
    let fy = if speed > 0 {
        b.force.y - div_trunc_spec(
            ((b.velocity.y * speed) * b.mass) * dt,
            LINEAR_DRAG_DEN * MILLI,
        )
    } else {
        b.force.y as int
    };
    let af = if b.angular_velocity > 0 {
        b.angular_force - div_trunc_spec(
            ((b.angular_velocity * b.angular_velocity) * ANGULAR_DRAG) * dt,
            MILLI * MILLI,
        )
    } else {
        b.angular_force as int
    };
    let ax = div_trunc_spec(fx, b.mass as int);
    let ay = div_trunc_spec(fy, b.mass as int);
    let aa = div_trunc_spec(af, b.mass as int);
    let vx = b.velocity.x + div_trunc_spec(ax * dt, MILLI as int);
    let vy = b.velocity.y + div_trunc_spec(ay * dt, MILLI as int);
    let av = b.angular_velocity + div_trunc_spec(aa * dt, MILLI as int);
    let dispx = div_trunc_spec(vx * dt, MILLI as int);
    let dispy = div_trunc_spec(vy * dt, MILLI as int);
    let ex = (b.circle.pos.x + dispx) as i64;
    let ey = (b.circle.pos.y + dispy) as i64;
    let swept = Rect {
        bottom_left: Point {
            x: (min64(b.circle.pos.x, ex) - b.circle.radius) as i64,
            y: (min64(b.circle.pos.y, ey) - b.circle.radius) as i64,
        },
        top_right: Point {
            x: (max64(b.circle.pos.x, ex) + b.circle.radius) as i64,
            y: (max64(b.circle.pos.y, ey) + b.circle.radius) as i64,
        },
    };
    Blob {
        id: b.id,
        circle: Circle { pos: Point { x: ex, y: ey }, radius: b.circle.radius },
        mass: b.mass,
        velocity: Point { x: vx as i64, y: vy as i64 },
        force: Point { x: 0, y: 0 },
        rotation: (b.rotation + div_trunc_spec(av * dt, MILLI as int)) as i64,
        angular_velocity: av as i64,
        angular_force: 0,
        collision_aabb: swept,
    }
}

/// One velocity component under pure drag: the change opposes the
/// component and never exceeds it in magnitude, provided the speed times
/// the squared time step stays within the drag scale.
proof fn lemma_drag_component(v: int, s: int, m: int, dt: int)
    requires
        1 <= m,
        0 <= dt,
        0 <= s,
        s * (dt * dt) <= LINEAR_DRAG_DEN * MILLI * MILLI,
    ensures
        ({
            let d1 = div_trunc_spec(((v * s) * m) * dt, LINEAR_DRAG_DEN * MILLI);
            let ax = div_trunc_spec(0 - d1, m as int);
            let dv = div_trunc_spec(ax * dt, MILLI as int);
            &&& v >= 0 ==> 0 <= v + dv <= v
            &&& v <= 0 ==> v <= v + dv <= 0
        }),
{
    let den = LINEAR_DRAG_DEN * MILLI;
    let w = ((v * s) * m) * dt;
    let d1 = div_trunc_spec(w, den);
    let ax = div_trunc_spec(0 - d1, m as int);
    let dv = div_trunc_spec(ax * dt, MILLI as int);
    crate::math::num::lemma_div_trunc_mod(w, den);
    crate::math::num::lemma_div_trunc_range(w, den);
    crate::math::num::lemma_div_trunc_mod(0 - d1, m);
    crate::math::num::lemma_div_trunc_range(0 - d1, m);
    crate::math::num::lemma_div_trunc_mod(ax * dt, MILLI as int);
    crate::math::num::lemma_div_trunc_range(ax * dt, MILLI as int);
    if v >= 0 {
        assert(w >= 0) by (nonlinear_arith)
            requires
                w == ((v * s) * m) * dt,
                v >= 0,
                s >= 0,
                m >= 1,
                dt >= 0,
        ;
        assert(d1 >= 0);
        assert(ax <= 0);
        assert(ax * dt <= 0) by (nonlinear_arith)
            requires
                ax <= 0,
                dt >= 0,
        ;
        assert(dv <= 0);
        // (-dv) * (den * MILLI) * m <= v * m * (den * MILLI)
        assert((0 - dv) * MILLI <= (0 - ax) * dt) by (nonlinear_arith)
            requires
                (ax * dt) - dv * MILLI <= 0,
                dv <= 0,
        ;
        assert((0 - ax) * m <= d1) by (nonlinear_arith)
            requires
                (0 - d1) - ax * m >= -m + 1,
                (0 - d1) - ax * m <= 0,
        ;
        assert(d1 * den <= w) by (nonlinear_arith)
            requires
                w - d1 * den >= 0,
        ;
        assert((0 - dv) * (MILLI * den) * m <= ((0 - ax) * dt) * den * m) by (nonlinear_arith)
            requires
                (0 - dv) * MILLI <= (0 - ax) * dt,
                den > 0,
                m >= 1,
                0 - dv >= 0,
                0 - ax >= 0,
                dt >= 0,
        ;
        assert(((0 - ax) * dt) * den * m <= d1 * den * dt) by (nonlinear_arith)
            requires
                (0 - ax) * m <= d1,
                dt >= 0,
                den > 0,
        ;
        assert(d1 * den * dt <= w * dt) by (nonlinear_arith)
            requires
                d1 * den <= w,
                dt >= 0,
        ;
        assert(w * dt <= v * m * (MILLI * den)) by (nonlinear_arith)
            requires
                w == ((v * s) * m) * dt,
                s * (dt * dt) <= den * MILLI,
                v >= 0,
                m >= 1,
                dt >= 0,
                s >= 0,
                den == LINEAR_DRAG_DEN * MILLI,
        ;
        assert(0 - dv <= v) by (nonlinear_arith)
            requires
                (0 - dv) * (MILLI * den) * m <= v * m * (MILLI * den),
                m >= 1,
                den > 0,
        ;
    } else {
        assert(w <= 0) by (nonlinear_arith)
            requires
                w == ((v * s) * m) * dt,
                v <= 0,
                s >= 0,
                m >= 1,
                dt >= 0,
        ;
        assert(d1 <= 0);
        assert(ax >= 0);
        assert(ax * dt >= 0) by (nonlinear_arith)
            requires
                ax >= 0,
                dt >= 0,
        ;
        assert(dv >= 0);
        assert(dv * MILLI <= ax * dt) by (nonlinear_arith)
            requires
                (ax * dt) - dv * MILLI >= 0,
                dv >= 0,
        ;
        assert(ax * m <= 0 - d1) by (nonlinear_arith)
            requires
                (0 - d1) - ax * m >= 0,
        ;
        assert((0 - d1) * den <= 0 - w) by (nonlinear_arith)
            requires
                w - d1 * den <= 0,
        ;
        assert(dv * (MILLI * den) * m <= (ax * dt) * den * m) by (nonlinear_arith)
            requires
                dv * MILLI <= ax * dt,
                den > 0,
                m >= 1,
                dv >= 0,
                ax >= 0,
                dt >= 0,
        ;
        assert((ax * dt) * den * m <= (0 - d1) * den * dt) by (nonlinear_arith)
            requires
                ax * m <= 0 - d1,
                dt >= 0,
                den > 0,
        ;
        assert((0 - d1) * den * dt <= (0 - w) * dt) by (nonlinear_arith)
            requires
                (0 - d1) * den <= 0 - w,
                dt >= 0,
        ;
        assert((0 - w) * dt <= (0 - v) * m * (MILLI * den)) by (nonlinear_arith)
            requires
                w == ((v * s) * m) * dt,
                s * (dt * dt) <= den * MILLI,
                v <= 0,
                m >= 1,
                dt >= 0,
                s >= 0,
                den == LINEAR_DRAG_DEN * MILLI,
        ;
        assert(dv <= 0 - v) by (nonlinear_arith)
            requires
                dv * (MILLI * den) * m <= (0 - v) * m * (MILLI * den),
                m >= 1,
                den > 0,
        ;
    }
}

/// One integration step from an acceptable state yields a valid swept box
/// with coordinates safely inside the geometric range, and keeps the
/// body's identity, radius and mass.
pub proof fn lemma_update_box(b: Blob, dt: int)
    requires
        update_ready(b, dt),
    ensures
        ({
            let a = spec_update(b, dt);
            &&& a.collision_aabb.is_valid()
            &&& crate::math::point::coord_bounded(a.collision_aabb.bottom_left)
            &&& crate::math::point::coord_bounded(a.collision_aabb.top_right)
            &&& crate::math::point::coord_bounded(a.circle.pos)
            &&& a.id == b.id
            &&& a.circle.radius == b.circle.radius
            &&& a.mass == b.mass
        }),
{
    let speed = spec_speed(b);
    crate::math::num::lemma_sqrt_floor_bounds(
        (b.velocity.x * b.velocity.x + b.velocity.y * b.velocity.y) as nat,
    );
    lemma_mul_bounds(b.velocity.x as int, VEL_LIMIT as int, b.velocity.x as int, VEL_LIMIT as int);
    lemma_mul_bounds(b.velocity.y as int, VEL_LIMIT as int, b.velocity.y as int, VEL_LIMIT as int);
    assert(b.velocity.x * b.velocity.x >= 0 && b.velocity.y * b.velocity.y >= 0)
        by (nonlinear_arith);
    assert(speed <= 2_000_000) by (nonlinear_arith)
        requires
            speed * speed <= 2_000_000_000_000,
            speed >= 0,
    ;
    let den = LINEAR_DRAG_DEN * MILLI;
    let wx = ((b.velocity.x * speed) * b.mass) * dt;
    let wy = ((b.velocity.y * speed) * b.mass) * dt;
    lemma_mul_bounds(b.velocity.x as int, VEL_LIMIT as int, speed, 2_000_000);
    lemma_mul_bounds(b.velocity.x * speed, 2_000_000_000_000, b.mass as int, MASS_LIMIT as int);
    lemma_mul_bounds(
        (b.velocity.x * speed) * b.mass,
        2_000_000_000_000_000_000,
        dt,
        DT_LIMIT as int,
    );
    lemma_mul_bounds(b.velocity.y as int, VEL_LIMIT as int, speed, 2_000_000);
    lemma_mul_bounds(b.velocity.y * speed, 2_000_000_000_000, b.mass as int, MASS_LIMIT as int);
    lemma_mul_bounds(
        (b.velocity.y * speed) * b.mass,
        2_000_000_000_000_000_000,
        dt,
        DT_LIMIT as int,
    );
    crate::math::num::lemma_div_trunc_abs(wx, den, 2_000_000_000_000_000_000_000);
    crate::math::num::lemma_div_trunc_abs(wy, den, 2_000_000_000_000_000_000_000);
    let fx = if speed > 0 {
        b.force.x - div_trunc_spec(wx, den)
    } else {
        b.force.x as int
    };
    let fy = if speed > 0 {
        b.force.y - div_trunc_spec(wy, den)
    } else {
        b.force.y as int
    };
    assert(-410_000_000_000_000_000 <= fx <= 410_000_000_000_000_000);
    assert(-410_000_000_000_000_000 <= fy <= 410_000_000_000_000_000);
    let ax = div_trunc_spec(fx, b.mass as int);
    let ay = div_trunc_spec(fy, b.mass as int);
    crate::math::num::lemma_div_trunc_abs(fx, b.mass as int, 410_000_000_000_000_000);
    crate::math::num::lemma_div_trunc_abs(fy, b.mass as int, 410_000_000_000_000_000);
    vstd::arithmetic::div_mod::lemma_div_is_ordered_by_denominator(
        410_000_000_000_000_000,
        1,
        b.mass as int,
    );
    vstd::arithmetic::div_mod::lemma_div_by_self(1);
    assert(410_000_000_000_000_000int / 1int == 410_000_000_000_000_000int);
    assert(-410_000_000_000_000_000 <= ax <= 410_000_000_000_000_000);
    assert(-410_000_000_000_000_000 <= ay <= 410_000_000_000_000_000);
    lemma_mul_bounds(ax, 410_000_000_000_000_000, dt, DT_LIMIT as int);
    lemma_mul_bounds(ay, 410_000_000_000_000_000, dt, DT_LIMIT as int);
    crate::math::num::lemma_div_trunc_abs(ax * dt, MILLI as int, 410_000_000_000_000_000_000);
    crate::math::num::lemma_div_trunc_abs(ay * dt, MILLI as int, 410_000_000_000_000_000_000);
    let vx = b.velocity.x + div_trunc_spec(ax * dt, MILLI as int);
    let vy = b.velocity.y + div_trunc_spec(ay * dt, MILLI as int);
    assert(-411_000_000_000_000_000 <= vx <= 411_000_000_000_000_000);
    assert(-411_000_000_000_000_000 <= vy <= 411_000_000_000_000_000);
    lemma_mul_bounds(vx, 411_000_000_000_000_000, dt, DT_LIMIT as int);
    lemma_mul_bounds(vy, 411_000_000_000_000_000, dt, DT_LIMIT as int);
    crate::math::num::lemma_div_trunc_abs(vx * dt, MILLI as int, 411_000_000_000_000_000_000);
    crate::math::num::lemma_div_trunc_abs(vy * dt, MILLI as int, 411_000_000_000_000_000_000);
}

/// Law: with no applied force, one integration step never increases the
/// body's speed, and the drag term alone never flips the sign of either
/// velocity component, for time steps small enough that the speed times
/// the squared step stays within the drag scale.
pub proof fn lemma_drag_slows(b: Blob, dt: int)
    requires
        update_ready(b, dt),
        b.force.x == 0,
        b.force.y == 0,
        spec_speed(b) * (dt * dt) <= LINEAR_DRAG_DEN * MILLI * MILLI,
    ensures
        ({
            let a = spec_update(b, dt);
            &&& b.velocity.x >= 0 ==> 0 <= a.velocity.x <= b.velocity.x
            &&& b.velocity.x <= 0 ==> b.velocity.x <= a.velocity.x <= 0
            &&& b.velocity.y >= 0 ==> 0 <= a.velocity.y <= b.velocity.y
            &&& b.velocity.y <= 0 ==> b.velocity.y <= a.velocity.y <= 0
            &&& a.velocity.x * a.velocity.x + a.velocity.y * a.velocity.y <= b.velocity.x
                * b.velocity.x + b.velocity.y * b.velocity.y
        }),
{
    let s = spec_speed(b);
    let a = spec_update(b, dt);
    crate::math::num::lemma_sqrt_floor_bounds(
        (b.velocity.x * b.velocity.x + b.velocity.y * b.velocity.y) as nat,
    );
    if s == 0 {
        assert(b.velocity.x * b.velocity.x + b.velocity.y * b.velocity.y < 1)
            by (nonlinear_arith)
            requires
                b.velocity.x * b.velocity.x + b.velocity.y * b.velocity.y < (s + 1) * (s + 1),
                s == 0,
        ;
        assert(b.velocity.x == 0 && b.velocity.y == 0) by (nonlinear_arith)
            requires
                b.velocity.x * b.velocity.x + b.velocity.y * b.velocity.y < 1,
        ;
        crate::math::num::lemma_div_trunc_range(0, b.mass as int);
        crate::math::num::lemma_div_trunc_range(0 * dt, MILLI as int);
    } else {
        lemma_drag_component(b.velocity.x as int, s, b.mass as int, dt);
        lemma_drag_component(b.velocity.y as int, s, b.mass as int, dt);
    }
    assert(a.velocity.x * a.velocity.x <= b.velocity.x * b.velocity.x && a.velocity.y
        * a.velocity.y <= b.velocity.y * b.velocity.y) by (nonlinear_arith)
        requires
            b.velocity.x >= 0 ==> 0 <= a.velocity.x <= b.velocity.x,
            b.velocity.x <= 0 ==> b.velocity.x <= a.velocity.x <= 0,
            b.velocity.y >= 0 ==> 0 <= a.velocity.y <= b.velocity.y,
            b.velocity.y <= 0 ==> b.velocity.y <= a.velocity.y <= 0,
    ;
}

impl Blob {
    /// A body at `(x, y)` with the given radius and identity, at rest, with
    /// the default mass, no accumulated forces, and no swept box yet (the
    /// empty sentinel, filled by the first `update`).
    pub fn new(x: i64, y: i64, radius: i64, id: BlobId) -> (r: Blob)
        ensures
            r.id == id,
            r.circle.pos.x == x,
            r.circle.pos.y == y,
            r.circle.radius == radius,
            r.mass == DEFAULT_MASS,
            r.velocity == (Point { x: 0i64, y: 0i64 }),
            r.force == (Point { x: 0i64, y: 0i64 }),
            r.rotation == 0,
            r.angular_velocity == 0,
            r.angular_force == 0,
            r.collision_aabb == Rect::spec_empty(),
    {
        Blob {
            id,
            circle: Circle::new(x, y, radius),
            mass: DEFAULT_MASS,
            velocity: Point { x: 0, y: 0 },
            force: Point { x: 0, y: 0 },
            rotation: 0,
            angular_velocity: 0,
            angular_force: 0,
            collision_aabb: Rect::new_empty(),
        }
    }

    /// Advances the body by one step of length `dt` milliseconds; the exact
    /// result is `spec_update`. The accumulated forces are consumed: they
    /// end at exactly zero whatever they were, so callers re-apply forces
    /// every tick.
    pub fn update(&mut self, dt: i64)
        requires
            update_ready(*old(self), dt as int),
        ensures
            *final(self) == spec_update(*old(self), dt as int),
            final(self).force.x == 0,
            final(self).force.y == 0,
            final(self).angular_force == 0,
    {
        proof {
            lemma_mul_bounds(
                self.velocity.x as int,
                VEL_LIMIT as int,
                self.velocity.x as int,
                VEL_LIMIT as int,
            );
            lemma_mul_bounds(
                self.velocity.y as int,
                VEL_LIMIT as int,
                self.velocity.y as int,
                VEL_LIMIT as int,
            );
            assert(self.velocity.x * self.velocity.x >= 0 && self.velocity.y * self.velocity.y
                >= 0) by (nonlinear_arith);
        }
        let speed = self.velocity.magnitude();
        proof {
            crate::math::num::lemma_sqrt_floor_bounds(
                (self.velocity.x * self.velocity.x + self.velocity.y * self.velocity.y) as nat,
            );
            assert(speed <= 2_000_000) by (nonlinear_arith)
                requires
                    speed * speed <= 2_000_000_000_000,
                    speed >= 0,
            ;
        }
        if speed > 0 {
            proof {
                lemma_mul_bounds(self.velocity.x as int, VEL_LIMIT as int, speed as int, 2_000_000);
                lemma_mul_bounds(
                    self.velocity.x as int * speed as int,
                    2_000_000_000_000,
                    self.mass as int,
                    MASS_LIMIT as int,
                );
                lemma_mul_bounds(
                    (self.velocity.x as int * speed as int) * self.mass as int,
                    2_000_000_000_000_000_000,
                    dt as int,
                    DT_LIMIT as int,
                );
                lemma_mul_bounds(self.velocity.y as int, VEL_LIMIT as int, speed as int, 2_000_000);
                lemma_mul_bounds(
                    self.velocity.y as int * speed as int,
                    2_000_000_000_000,
                    self.mass as int,
                    MASS_LIMIT as int,
                );
                lemma_mul_bounds(
                    (self.velocity.y as int * speed as int) * self.mass as int,
                    2_000_000_000_000_000_000,
                    dt as int,
                    DT_LIMIT as int,
                );
            }
            let wx: i128 = (((self.velocity.x as i128) * (speed as i128)) * (self.mass as i128))
                * (dt as i128);
            let wy: i128 = (((self.velocity.y as i128) * (speed as i128)) * (self.mass as i128))
                * (dt as i128);
            proof {
                lemma_div_trunc_range(wx as int, (LINEAR_DRAG_DEN * MILLI) as int);
                lemma_div_trunc_range(wy as int, (LINEAR_DRAG_DEN * MILLI) as int);
            }
            let dx = div_trunc(wx, (LINEAR_DRAG_DEN * MILLI) as i128);
            let dy = div_trunc(wy, (LINEAR_DRAG_DEN * MILLI) as i128);
            self.force.x = self.force.x - dx as i64;
            self.force.y = self.force.y - dy as i64;
        }
        if self.angular_velocity > 0 {
            proof {
                lemma_mul_bounds(
                    self.angular_velocity as int,
                    VEL_LIMIT as int,
                    self.angular_velocity as int,
                    VEL_LIMIT as int,
                );
                lemma_mul_bounds(
                    self.angular_velocity as int * self.angular_velocity as int,
                    1_000_000_000_000,
                    ANGULAR_DRAG as int,
                    ANGULAR_DRAG as int,
                );
                lemma_mul_bounds(
                    (self.angular_velocity as int * self.angular_velocity as int)
                        * ANGULAR_DRAG as int,
                    1_000_000_000_000_000,
                    dt as int,
                    DT_LIMIT as int,
                );
            }
            let ww: i128 = (((self.angular_velocity as i128) * (self.angular_velocity as i128))
                * (ANGULAR_DRAG as i128)) * (dt as i128);
            proof {
                lemma_div_trunc_range(ww as int, (MILLI * MILLI) as int);
            }
            let da = div_trunc(ww, (MILLI * MILLI) as i128);
            self.angular_force = self.angular_force - da as i64;
        }
        let ax = crate::math::num::div_i64_trunc(self.force.x, self.mass);
        let ay = crate::math::num::div_i64_trunc(self.force.y, self.mass);
        let aa = crate::math::num::div_i64_trunc(self.angular_force, self.mass);
        proof {
            lemma_div_trunc_range(self.force.x as int, self.mass as int);
            lemma_div_trunc_range(self.force.y as int, self.mass as int);
            lemma_div_trunc_range(self.angular_force as int, self.mass as int);
            lemma_mul_bounds(ax as int, 500_000_000_000_000_000, dt as int, DT_LIMIT as int);
            lemma_mul_bounds(ay as int, 500_000_000_000_000_000, dt as int, DT_LIMIT as int);
            lemma_mul_bounds(aa as int, 500_000_000_000_000_000, dt as int, DT_LIMIT as int);
            lemma_div_trunc_range(ax as int * dt as int, MILLI as int);
            lemma_div_trunc_range(ay as int * dt as int, MILLI as int);
            lemma_div_trunc_range(aa as int * dt as int, MILLI as int);
        }
        let dvx = div_trunc((ax as i128) * (dt as i128), MILLI as i128);
        let dvy = div_trunc((ay as i128) * (dt as i128), MILLI as i128);
        let dva = div_trunc((aa as i128) * (dt as i128), MILLI as i128);
        self.velocity.x = self.velocity.x + dvx as i64;
        self.velocity.y = self.velocity.y + dvy as i64;
        self.angular_velocity = self.angular_velocity + dva as i64;
        proof {
            lemma_mul_bounds(
                self.velocity.x as int,
                600_000_000_000_000_000,
                dt as int,
                DT_LIMIT as int,
            );
            lemma_mul_bounds(
                self.velocity.y as int,
                600_000_000_000_000_000,
                dt as int,
                DT_LIMIT as int,
            );
            lemma_mul_bounds(
                self.angular_velocity as int,
                600_000_000_000_000_000,
                dt as int,
                DT_LIMIT as int,
            );
            lemma_div_trunc_range(self.velocity.x as int * dt as int, MILLI as int);
            lemma_div_trunc_range(self.velocity.y as int * dt as int, MILLI as int);
            lemma_div_trunc_range(self.angular_velocity as int * dt as int, MILLI as int);
        }
        let dispx = div_trunc((self.velocity.x as i128) * (dt as i128), MILLI as i128);
        let dispy = div_trunc((self.velocity.y as i128) * (dt as i128), MILLI as i128);
        let end = Point {
            x: self.circle.pos.x + dispx as i64,
            y: self.circle.pos.y + dispy as i64,
        };
        let mut swept = Rect::new_valid(self.circle.pos, end);
        swept.grow(self.circle.radius, self.circle.radius);
        self.collision_aabb = swept;
        self.circle.pos = end;
        let drot = div_trunc((self.angular_velocity as i128) * (dt as i128), MILLI as i128);
        self.rotation = self.rotation + drot as i64;
        self.force = Point { x: 0, y: 0 };
        self.angular_force = 0;
    }
}

} // verus!
