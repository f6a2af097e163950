//! The sensor model: twenty evenly spaced rays around the turret facing
//! (offset by half a circle, so ray 0 points directly behind) report
//! whether an enemy within the visibility radius would occlude them.

use vstd::prelude::*;
use crate::fixed::{SCALE, PI, TWO_PI, HALF_PI, div_trunc, abs_spec, sqrt_floor, div_fx, abs_fx};
use crate::trig::{half_wave, arc_tan_spec, wrap_angle, sin_fx, lemma_half_wave_bounds};
use crate::entity::{Point, Enemy, point_ok, ENEMY_WIDTH};
use vstd::arithmetic::div_mod::lemma_small_mod;

verus! {

/// Number of sensor rays.
pub const TOTAL_VIEW_RAYS: usize = 20;

/// Visibility radius of the sensor, in milli-pixels.
pub const VIEW_RAY_LENGTH: i64 = 400_000;

/// Angular width of one sector, in milliradians.
pub const SECTOR_STEP: i64 = 314;

/// Horizontal offset of an enemy from the world centre.
pub open spec fn rel_x(e: Enemy, cx: int) -> int {
    e.position.x - cx
}

/// Vertical offset of an enemy from the world centre.
pub open spec fn rel_y(e: Enemy, cy: int) -> int {
    e.position.y - cy
}

/// Distance of an enemy from the world centre.
pub open spec fn enemy_dist(e: Enemy, cx: int, cy: int) -> int {
    sqrt_floor(rel_x(e, cx) * rel_x(e, cx) + rel_y(e, cy) * rel_y(e, cy))
}

/// Bearing of an enemy as seen from the world centre.
pub open spec fn enemy_bearing(e: Enemy, cx: int, cy: int) -> int {
    arc_tan_spec(rel_y(e, cy), rel_x(e, cx))
}

/// Absolute angle of sensor ray `i` for a turret facing `direction`.
pub open spec fn sector_angle(direction: int, i: int) -> int {
    (direction + i * SECTOR_STEP - PI) % (TWO_PI as int)
}

/// The circular distance between two angles in `[0, TWO_PI)`: the
/// shorter way around the circle, in `[0, PI]`.
pub open spec fn ang_diff(a: int, b: int) -> int {
    let d = abs_spec(a - b);
    if d <= TWO_PI - d {
        d
    } else {
        TWO_PI - d
    }
}

/// An enemy occludes the ray at absolute angle `angle`: it is within the
/// visibility radius, less than a quarter circle off the ray measured the
/// shorter way around the circle, and its lateral offset from the ray
/// line is within half its width.
pub open spec fn qualifies(angle: int, e: Enemy, cx: int, cy: int) -> bool {
    let dist = enemy_dist(e, cx, cy);
    let delta = ang_diff(angle, enemy_bearing(e, cx, cy));
    &&& dist <= VIEW_RAY_LENGTH
    &&& delta < HALF_PI
    &&& div_trunc(dist * half_wave(delta), SCALE as int) <= ENEMY_WIDTH / 2
}

/// The sensor vector: entry `i` is `SCALE` exactly when some enemy
/// occludes ray `i`, and `0` otherwise.
pub open spec fn sensor_spec(direction: int, cx: int, cy: int, enemies: Seq<Enemy>) -> Seq<i64> {
    Seq::new(
        TOTAL_VIEW_RAYS as nat,
        |i: int|
            if exists|k: int|
                0 <= k < enemies.len() && qualifies(
                    sector_angle(direction, i),
                    #[trigger] enemies[k],
                    cx,
                    cy,
                ) {
                SCALE
            } else {
                0
            },
    )
}

/// The occupancy vector over the twenty sensor rays.
pub fn get_known_enemy_locations(
    direction: i64,
    center: Point,
    enemies: &Vec<Enemy>,
) -> (r: Vec<i64>)
    requires
        0 <= direction < TWO_PI,
        point_ok(center),
        forall|k: int| 0 <= k < enemies@.len() ==> point_ok(
            (#[trigger] enemies@[k]).position,
        ),
    ensures
        r@ == sensor_spec(direction as int, center.x as int, center.y as int, enemies@),
        r@.len() == TOTAL_VIEW_RAYS,
{
    let mut r: Vec<i64> = Vec::new();
    let mut i: usize = 0;
    while i < TOTAL_VIEW_RAYS
        invariant
            0 <= i <= TOTAL_VIEW_RAYS,
            0 <= direction < TWO_PI,
            point_ok(center),
            forall|k: int| 0 <= k < enemies@.len() ==> point_ok(
                (#[trigger] enemies@[k]).position,
            ),
            r@.len() == i,
            forall|q: int| 0 <= q < i ==> r@[q] == sensor_spec(
                direction as int,
                center.x as int,
                center.y as int,
                enemies@,
            )[q],
        decreases TOTAL_VIEW_RAYS - i,
    {
        let angle = wrap_angle(direction + (i as i64) * SECTOR_STEP - PI);
        let mut found: bool = false;
        let mut k: usize = 0;
        while k < enemies.len()
            invariant
                0 <= k <= enemies@.len(),
                point_ok(center),
                forall|q: int| 0 <= q < enemies@.len() ==> point_ok(
                    (#[trigger] enemies@[q]).position,
                ),
                0 <= angle < TWO_PI,
                angle == sector_angle(direction as int, i as int),
                found <==> exists|q: int|
                    0 <= q < k && qualifies(
                        angle as int,
                        #[trigger] enemies@[q],
                        center.x as int,
                        center.y as int,
                    ),
            decreases enemies@.len() - k,
        {
            if !found {
                let e_pos = enemies[k].position;
                let rel = e_pos.difference(&center);
                let dist = rel.magnitude();
                if dist <= VIEW_RAY_LENGTH {
                    let bearing = rel.arc_tan();
                    let delta_abs = abs_fx(angle - bearing);
                    let delta = if delta_abs <= TWO_PI - delta_abs {
                        delta_abs
                    } else {
                        TWO_PI - delta_abs
                    };
                    proof {
                        assert(delta as int == ang_diff(angle as int, bearing as int));
                    }
                    if delta < HALF_PI {
                        proof {
                            lemma_half_wave_bounds(delta as int);
                        }
                        let lateral_sin = sin_fx(delta);
                        proof {
                            assert(0 <= dist * lateral_sin <= 400_000_000)
                                by (nonlinear_arith)
                                requires
                                    0 <= dist <= 400_000,
                                    0 <= lateral_sin <= 1000,
                            ;
                        }
                        let lateral = div_fx(dist * lateral_sin, SCALE);
                        if lateral <= ENEMY_WIDTH / 2 {
                            found = true;
                            proof {
                                assert(rel.x == rel_x(enemies@[k as int], center.x as int));
                                assert(rel.y == rel_y(enemies@[k as int], center.y as int));
                                assert(lateral_sin == half_wave(
                                    ang_diff(
                                        angle as int,
                                        enemy_bearing(
                                            enemies@[k as int],
                                            center.x as int,
                                            center.y as int,
                                        ),
                                    ),
                                ));
                                assert(qualifies(
                                    angle as int,
                                    enemies@[k as int],
                                    center.x as int,
                                    center.y as int,
                                ));
                            }
                        }
                    }
                }
            }
            k = k + 1;
        }
        if found {
            r.push(SCALE);
        } else {
            r.push(0);
        }
        proof {
            assert(r@[i as int] == sensor_spec(
                direction as int,
                center.x as int,
                center.y as int,
                enemies@,
            )[i as int]);
        }
        i = i + 1;
    }
    proof {
        assert(r@ =~= sensor_spec(direction as int, center.x as int, center.y as int, enemies@));
    }
    r
}

/// Law: an enemy sitting exactly on a ray's line, within the visibility
/// radius, sets that ray's sector.
pub proof fn lemma_aligned_enemy_is_seen(
    direction: int,
    cx: int,
    cy: int,
    enemies: Seq<Enemy>,
    k: int,
    i: int,
)
    requires
        0 <= i < TOTAL_VIEW_RAYS,
        0 <= k < enemies.len(),
        enemy_bearing(enemies[k], cx, cy) == sector_angle(direction, i),
        enemy_dist(enemies[k], cx, cy) <= VIEW_RAY_LENGTH,
    ensures
        sensor_spec(direction, cx, cy, enemies)[i] == SCALE,
{
    let e = enemies[k];
    let angle = sector_angle(direction, i);
    assert(ang_diff(angle, enemy_bearing(e, cx, cy)) == 0);
    assert(half_wave(0) == 0) by {
        assert(16 * (0 * (PI - 0)) * SCALE == 0);
    }
    assert(enemy_dist(e, cx, cy) * half_wave(0) == 0) by (nonlinear_arith)
        requires
            half_wave(0) == 0,
    ;
    assert(div_trunc(0, SCALE as int) == 0);
    assert(qualifies(angle, e, cx, cy));
}

/// Law: the ray aligned with the turret's facing (ray 10, half the ray
/// count away from the backward-pointing ray 0) reports an enemy that sits
/// exactly on the facing line within the visibility radius.
pub proof fn lemma_facing_enemy_sets_forward_sector(
    direction: int,
    cx: int,
    cy: int,
    enemies: Seq<Enemy>,
    k: int,
)
    requires
        0 <= direction < TWO_PI,
        0 <= k < enemies.len(),
        enemy_bearing(enemies[k], cx, cy) == direction,
        enemy_dist(enemies[k], cx, cy) <= VIEW_RAY_LENGTH,
    ensures
        sensor_spec(direction, cx, cy, enemies)[10] == SCALE,
{
    assert(direction + 10 * SECTOR_STEP - PI == direction);
    lemma_small_mod(direction as nat, TWO_PI as nat);
    assert(sector_angle(direction, 10) == direction);
    lemma_aligned_enemy_is_seen(direction, cx, cy, enemies, k, 10);
}

/// Law: an enemy beyond the visibility radius occludes no ray at all,
/// whatever its bearing.
pub proof fn lemma_beyond_radius_never_seen(e: Enemy, cx: int, cy: int)
    requires
        enemy_dist(e, cx, cy) > VIEW_RAY_LENGTH,
    ensures
        forall|angle: int| !qualifies(angle, e, cx, cy),
{
}

/// Law: if every enemy is beyond the visibility radius, the whole sensor
/// vector is zero.
pub proof fn lemma_all_beyond_radius_blank_sensor(
    direction: int,
    cx: int,
    cy: int,
    enemies: Seq<Enemy>,
)
    requires
        forall|k: int| 0 <= k < enemies.len() ==> enemy_dist(#[trigger] enemies[k], cx, cy)
            > VIEW_RAY_LENGTH,
    ensures
        forall|i: int| 0 <= i < TOTAL_VIEW_RAYS ==> sensor_spec(
            direction,
            cx,
            cy,
            enemies,
        )[i] == 0,
{
    assert forall|i: int| 0 <= i < TOTAL_VIEW_RAYS implies sensor_spec(
        direction,
        cx,
        cy,
        enemies,
    )[i] == 0 by {
        assert forall|k: int| 0 <= k < enemies.len() implies !qualifies(
            sector_angle(direction, i),
            #[trigger] enemies[k],
            cx,
            cy,
        ) by {
            lemma_beyond_radius_never_seen(enemies[k], cx, cy);
        }
    }
}

} // verus!
