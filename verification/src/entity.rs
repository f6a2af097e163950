//! World entities: 2-D fixed-point vectors, the turret (cannon), bullets
//! and enemies, together with their per-tick kinematics.

use vstd::prelude::*;
use crate::fixed::{SCALE, div_trunc, sqrt_floor};
use crate::fixed::isqrt;
use crate::trig::{arc_tan_spec, arc_tan_fx};

verus! {

/// Radius of the turret's circular body, in milli-pixels.
pub const CANNON_RADIUS: i64 = 50_000;

/// Length of the turret's barrel, in milli-pixels.
pub const BARREL_HEIGHT: i64 = 40_000;

/// Width of an enemy shape, in milli-pixels.
pub const ENEMY_WIDTH: i64 = 75_000;

/// Height of an enemy shape, in milli-pixels.
pub const ENEMY_HEIGHT: i64 = 100_000;

/// Length of a bullet shape, in milli-pixels.
pub const BULLET_HEIGHT: i64 = 25_000;

/// Coordinates the geometric helpers accept, comfortably wider than
/// anything the simulation produces.
pub open spec fn coord_ok(c: int) -> bool {
    -1_000_000_000 <= c <= 1_000_000_000
}

/// Both coordinates of a point within `coord_ok`.
pub open spec fn point_ok(p: Point) -> bool {
    coord_ok(p.x as int) && coord_ok(p.y as int)
}

/// Velocity components the kinematics accept.
pub open spec fn vel_ok(p: Point) -> bool {
    -1_000_000 <= p.x <= 1_000_000 && -1_000_000 <= p.y <= 1_000_000
}

/// Largest time step a single tick may advance, in milli-time-units.
pub const DT_LIMIT: i64 = 60_000;

/// A 2-D point or vector in fixed-point milli-units.
#[derive(Clone, Copy)]
pub struct Point {
    pub x: i64,
    pub y: i64,
}

/// Squared length of the vector `p`.
pub open spec fn dist2(p: Point) -> int {
    p.x * p.x + p.y * p.y
}

impl Point {
    /// Add `other` into `self`, returning `self` for chaining.
    pub fn sum_to_borrowed(&mut self, other: &Point) -> (r: &mut Point)
        requires
            -2_000_000_000_000 <= old(self).x + other.x <= 2_000_000_000_000,
            -2_000_000_000_000 <= old(self).y + other.y <= 2_000_000_000_000,
        ensures
            r.x == old(self).x + other.x,
            r.y == old(self).y + other.y,
            *final(self) == *final(r),
    {
        self.x = self.x + other.x;
        self.y = self.y + other.y;
        self
    }

    /// Add `other` to an owned point.
    pub fn sum_to_owned(self, other: &Point) -> (r: Point)
        requires
            -2_000_000_000_000 <= self.x + other.x <= 2_000_000_000_000,
            -2_000_000_000_000 <= self.y + other.y <= 2_000_000_000_000,
        ensures
            r.x == self.x + other.x,
            r.y == self.y + other.y,
    {
        let mut s = self;
        s.sum_to_borrowed(other);
        s
    }

    /// Componentwise sum.
    pub fn sum(&self, other: &Point) -> (r: Point)
        requires
            -2_000_000_000_000 <= self.x + other.x <= 2_000_000_000_000,
            -2_000_000_000_000 <= self.y + other.y <= 2_000_000_000_000,
        ensures
            r.x == self.x + other.x,
            r.y == self.y + other.y,
    {
        (*self).sum_to_owned(other)
    }

    /// Subtract `other` from `self`, returning `self` for chaining.
    pub fn difference_to_borrowed(&mut self, other: &Point) -> (r: &mut Point)
        requires
            -2_000_000_000_000 <= old(self).x - other.x <= 2_000_000_000_000,
            -2_000_000_000_000 <= old(self).y - other.y <= 2_000_000_000_000,
        ensures
            r.x == old(self).x - other.x,
            r.y == old(self).y - other.y,
            *final(self) == *final(r),
    {
        self.x = self.x - other.x;
        self.y = self.y - other.y;
        self
    }

    /// Subtract `other` from an owned point.
    pub fn difference_to_owned(self, other: &Point) -> (r: Point)
        requires
            -2_000_000_000_000 <= self.x - other.x <= 2_000_000_000_000,
            -2_000_000_000_000 <= self.y - other.y <= 2_000_000_000_000,
        ensures
            r.x == self.x - other.x,
            r.y == self.y - other.y,
    {
        let mut s = self;
        s.difference_to_borrowed(other);
        s
    }

    /// Componentwise difference.
    pub fn difference(&self, other: &Point) -> (r: Point)
        requires
            -2_000_000_000_000 <= self.x - other.x <= 2_000_000_000_000,
            -2_000_000_000_000 <= self.y - other.y <= 2_000_000_000_000,
        ensures
            r.x == self.x - other.x,
            r.y == self.y - other.y,
    {
        (*self).difference_to_owned(other)
    }

    /// Scale by a fixed-point scalar in place, returning `self` for chaining.
    pub fn scale_to_borrowed(&mut self, scalar: i64) -> (r: &mut Point)
        requires
            -1_000_000_000_000 <= old(self).x <= 1_000_000_000_000,
            -1_000_000_000_000 <= old(self).y <= 1_000_000_000_000,
            -1_000_000 <= scalar <= 1_000_000,
        ensures
            r.x == div_trunc(old(self).x * scalar, SCALE as int),
            r.y == div_trunc(old(self).y * scalar, SCALE as int),
            *final(self) == *final(r),
    {
        proof {
            let x0 = self.x;
            let y0 = self.y;
            assert(-1_000_000_000_000_000_000 <= x0 * scalar <= 1_000_000_000_000_000_000
                && -1_000_000_000_000_000_000 <= y0 * scalar <= 1_000_000_000_000_000_000)
                by (nonlinear_arith)
                requires
                    -1_000_000_000_000 <= x0 <= 1_000_000_000_000,
                    -1_000_000_000_000 <= y0 <= 1_000_000_000_000,
                    -1_000_000 <= scalar <= 1_000_000,
            ;
        }
        self.x = crate::fixed::div_fx(self.x * scalar, SCALE);
        self.y = crate::fixed::div_fx(self.y * scalar, SCALE);
        self
    }

    /// Scale an owned point by a fixed-point scalar.
    pub fn scale_to_owned(self, scalar: i64) -> (r: Point)
        requires
            -1_000_000_000_000 <= self.x <= 1_000_000_000_000,
            -1_000_000_000_000 <= self.y <= 1_000_000_000_000,
            -1_000_000 <= scalar <= 1_000_000,
        ensures
            r.x == div_trunc(self.x * scalar, SCALE as int),
            r.y == div_trunc(self.y * scalar, SCALE as int),
    {
        let mut s = self;
        s.scale_to_borrowed(scalar);
        s
    }

    /// Componentwise scaling by a fixed-point scalar.
    pub fn scale(&self, scalar: i64) -> (r: Point)
        requires
            -1_000_000_000_000 <= self.x <= 1_000_000_000_000,
            -1_000_000_000_000 <= self.y <= 1_000_000_000_000,
            -1_000_000 <= scalar <= 1_000_000,
        ensures
            r.x == div_trunc(self.x * scalar, SCALE as int),
            r.y == div_trunc(self.y * scalar, SCALE as int),
    {
        (*self).scale_to_owned(scalar)
    }

    /// Length of the vector: the integer square root of the squared length.
    pub fn magnitude(&self) -> (r: i64)
        requires
            -2_000_000_000 <= self.x <= 2_000_000_000,
            -2_000_000_000 <= self.y <= 2_000_000_000,
        ensures
            r == sqrt_floor(dist2(*self)),
            0 <= r,
            r * r <= dist2(*self) < (r + 1) * (r + 1),
    {
        proof {
            assert(0 <= self.x * self.x <= 4_000_000_000_000_000_000
                && 0 <= self.y * self.y <= 4_000_000_000_000_000_000) by (nonlinear_arith)
                requires
                    -2_000_000_000 <= self.x <= 2_000_000_000,
                    -2_000_000_000 <= self.y <= 2_000_000_000,
            ;
        }
        isqrt(self.x * self.x + self.y * self.y)
    }

    /// Polar angle of the vector, in `[0, TWO_PI)` milliradians.
    pub fn arc_tan(&self) -> (r: i64)
        requires
            -2_000_000_000 <= self.x <= 2_000_000_000,
            -2_000_000_000 <= self.y <= 2_000_000_000,
        ensures
            r == arc_tan_spec(self.y as int, self.x as int),
            0 <= r < crate::fixed::TWO_PI,
    {
        arc_tan_fx(self.y, self.x)
    }
}

/// The turret: a fixed position and a facing angle in `[0, TWO_PI)`.
pub struct Cannon {
    pub position: Point,
    pub direction: i64,
}

impl Cannon {
    /// A turret at the default viewport centre, facing along the x axis.
    pub fn new() -> (r: Cannon)
        ensures
            r.position.x == 400_000,
            r.position.y == 300_000,
            r.direction == 0,
    {
        Cannon { position: Point { x: 400_000, y: 300_000 }, direction: 0 }
    }
}

/// Anything that advances by its velocity each tick.
pub trait Entity {
    /// The entity's current position.
    spec fn entity_position(&self) -> Point;

    /// The entity's current velocity, in milli-units per time unit.
    spec fn entity_velocity(&self) -> Point;

    /// Advance the position by `velocity * delta_time`.
    fn update(&mut self, delta_time: i64)
        requires
            point_ok(old(self).entity_position()),
            vel_ok(old(self).entity_velocity()),
            0 < delta_time <= DT_LIMIT,
        ensures
            final(self).entity_position().x == old(self).entity_position().x + div_trunc(
                old(self).entity_velocity().x * delta_time,
                SCALE as int,
            ),
            final(self).entity_position().y == old(self).entity_position().y + div_trunc(
                old(self).entity_velocity().y * delta_time,
                SCALE as int,
            ),
            final(self).entity_velocity() == old(self).entity_velocity(),
    ;
}

/// A projectile fired from the turret's muzzle.
pub struct Bullet {
    pub position: Point,
    pub direction: i64,
    pub velocity: Point,
}

impl Entity for Bullet {
    open spec fn entity_position(&self) -> Point {
        self.position
    }

    open spec fn entity_velocity(&self) -> Point {
        self.velocity
    }

    fn update(&mut self, delta_time: i64)
        ensures
            final(self).direction == old(self).direction,
    {
        let step = self.velocity.scale(delta_time);
        proof {
            let vx = self.velocity.x as int;
            let vy = self.velocity.y as int;
            assert(-60_000_000_000 <= vx * delta_time <= 60_000_000_000
                && -60_000_000_000 <= vy * delta_time <= 60_000_000_000) by (nonlinear_arith)
                requires
                    -1_000_000 <= vx <= 1_000_000,
                    -1_000_000 <= vy <= 1_000_000,
                    0 < delta_time <= 60_000,
            ;
            crate::fixed::lemma_div_trunc_bounds(vx * delta_time, SCALE as int);
            crate::fixed::lemma_div_trunc_bounds(vy * delta_time, SCALE as int);
        }
        self.position.sum_to_borrowed(&step);
    }
}

/// An attacker moving inward from the spawn ring.
pub struct Enemy {
    pub position: Point,
    pub direction: i64,
    pub velocity: Point,
}

impl Entity for Enemy {
    open spec fn entity_position(&self) -> Point {
        self.position
    }

    open spec fn entity_velocity(&self) -> Point {
        self.velocity
    }

    fn update(&mut self, delta_time: i64)
        ensures
            final(self).direction == old(self).direction,
    {
        let step = self.velocity.scale(delta_time);
        proof {
            let vx = self.velocity.x as int;
            let vy = self.velocity.y as int;
            assert(-60_000_000_000 <= vx * delta_time <= 60_000_000_000
                && -60_000_000_000 <= vy * delta_time <= 60_000_000_000) by (nonlinear_arith)
                requires
                    -1_000_000 <= vx <= 1_000_000,
                    -1_000_000 <= vy <= 1_000_000,
                    0 < delta_time <= 60_000,
            ;
            crate::fixed::lemma_div_trunc_bounds(vx * delta_time, SCALE as int);
            crate::fixed::lemma_div_trunc_bounds(vy * delta_time, SCALE as int);
        }
        self.position.sum_to_borrowed(&step);
    }
}

} // verus!
