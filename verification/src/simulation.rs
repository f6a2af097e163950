//! The per-candidate simulation: tick phases in Destroy, Sense, Create,
//! Update order, with the candidate's fitness score accumulated along the
//! way.

use vstd::prelude::*;
use crate::fixed::{SCALE, PI, TWO_PI, div_trunc, abs_spec, div_fx, abs_fx};
use crate::fixed::lemma_div_trunc_bounds;
use crate::trig::{cos_spec, sin_spec, cos_fx, sin_fx, wrap_angle};
use crate::entity::{
    Point, Cannon, Bullet, Enemy, Entity, point_ok, vel_ok, DT_LIMIT,
    CANNON_RADIUS, BARREL_HEIGHT, ENEMY_WIDTH, ENEMY_HEIGHT, BULLET_HEIGHT,
};
use crate::neural_network::{NeuralNetwork, seq_bounded};
use crate::random::random_in_range;

verus! {

/// Turret rotation speed, in milliradians per time unit.
pub const GUN_ROTATE_VELOCITY: i64 = 750;

/// Bullet speed, in milli-pixels per time unit.
pub const BULLET_SPEED: i64 = 100_000;

/// Time between shots, in milli-time-units.
pub const BULLET_COOLDOWN: i64 = 2_000;

/// Time between enemy spawns, in milli-time-units.
pub const ENEMY_COOLDOWN: i64 = 4_000;

/// Enemy speed, in milli-pixels per time unit.
pub const ENEMY_SPEED: i64 = 25_000;

/// How far beyond the visibility ring enemies spawn, in milli-pixels.
pub const ENEMY_SPAWN_DISTANCE: i64 = 1_000;

/// Score awarded for destroying an enemy.
pub const KILL_REWARD: i64 = 1_000;

/// Score cost of firing one bullet.
pub const SHOT_COST: i64 = 100;

/// Centre-to-centre distance at which a bullet destroys an enemy.
pub const HIT_RADIUS: i64 = 62_500;

/// Centre distance below which an enemy has breached the turret.
pub const BREACH_RADIUS: i64 = 100_000;

/// Squared distance between two points.
pub open spec fn dist2_between(p: Point, q: Point) -> int {
    (p.x - q.x) * (p.x - q.x) + (p.y - q.y) * (p.y - q.y)
}

/// A bullet outside the viewport.
pub open spec fn bullet_oob(b: Bullet, dims: Point) -> bool {
    b.position.x < 0 || b.position.x > dims.x || b.position.y < 0 || b.position.y > dims.y
}

/// A bullet close enough to destroy an enemy: centres within half the
/// combined bullet and enemy extents.
pub open spec fn bullet_hits(b: Bullet, e: Enemy) -> bool {
    dist2_between(b.position, e.position) <= HIT_RADIUS * HIT_RADIUS
}

/// An enemy that has reached the turret.
pub open spec fn breached(e: Enemy, cx: int, cy: int) -> bool {
    (e.position.x - cx) * (e.position.x - cx) + (e.position.y - cy) * (e.position.y - cy)
        < BREACH_RADIUS * BREACH_RADIUS
}

/// Index of the first enemy a bullet hits, or `-1` when it hits none.
pub open spec fn first_hit(b: Bullet, es: Seq<Enemy>) -> int
    decreases es.len(),
{
    if es.len() == 0 {
        -1
    } else if bullet_hits(b, es[0]) {
        0
    } else {
        let r = first_hit(b, es.subrange(1, es.len() as int));
        if r == -1 {
            -1
        } else {
            r + 1
        }
    }
}

/// `first_hit` returns either `-1` with no enemy hit, or the least index
/// of a hit enemy.
pub proof fn lemma_first_hit_props(b: Bullet, es: Seq<Enemy>)
    ensures
        first_hit(b, es) == -1 ==> forall|j: int| 0 <= j < es.len() ==> !bullet_hits(
            b,
            #[trigger] es[j],
        ),
        first_hit(b, es) != -1 ==> 0 <= first_hit(b, es) < es.len() && bullet_hits(
            b,
            es[first_hit(b, es)],
        ) && forall|j: int| 0 <= j < first_hit(b, es) ==> !bullet_hits(b, #[trigger] es[j]),
    decreases es.len(),
{
    if es.len() > 0 && !bullet_hits(b, es[0]) {
        let rest = es.subrange(1, es.len() as int);
        lemma_first_hit_props(b, rest);
        assert forall|j: int| 1 <= j < es.len() implies es[j] == rest[j - 1] by {}
    }
}

/// The least hit index characterises `first_hit` uniquely.
pub proof fn lemma_first_hit_is(b: Bullet, es: Seq<Enemy>, j: int)
    requires
        0 <= j < es.len(),
        bullet_hits(b, es[j]),
        forall|k: int| 0 <= k < j ==> !bullet_hits(b, #[trigger] es[k]),
    ensures
        first_hit(b, es) == j,
    decreases es.len(),
{
    if j == 0 {
    } else {
        let rest = es.subrange(1, es.len() as int);
        lemma_first_hit_is(b, rest, j - 1);
    }
}

/// No hit at all characterises `first_hit == -1`.
pub proof fn lemma_first_hit_none(b: Bullet, es: Seq<Enemy>)
    requires
        forall|k: int| 0 <= k < es.len() ==> !bullet_hits(b, #[trigger] es[k]),
    ensures
        first_hit(b, es) == -1,
    decreases es.len(),
{
    if es.len() > 0 {
        let rest = es.subrange(1, es.len() as int);
        lemma_first_hit_none(b, rest);
    }
}

/// The bullet half of the destroy phase, processing bullets in order:
/// a bullet out of bounds disappears; a bullet whose first hit enemy is
/// `j` removes that enemy and itself and earns the kill reward; any other
/// bullet survives.
pub open spec fn destroy_step(
    bullets: Seq<Bullet>,
    enemies: Seq<Enemy>,
    dims: Point,
    score: int,
) -> (Seq<Bullet>, Seq<Enemy>, int)
    decreases bullets.len(),
{
    if bullets.len() == 0 {
        (bullets, enemies, score)
    } else {
        let b = bullets[0];
        let rest = bullets.subrange(1, bullets.len() as int);
        if bullet_oob(b, dims) {
            destroy_step(rest, enemies, dims, score)
        } else {
            let j = first_hit(b, enemies);
            if j == -1 {
                let r = destroy_step(rest, enemies, dims, score);
                (seq![b] + r.0, r.1, r.2)
            } else {
                destroy_step(rest, enemies.remove(j), dims, score + KILL_REWARD)
            }
        }
    }
}

/// The breach half of the destroy phase: enemies that reached the turret
/// disappear, the rest survive in order.
pub open spec fn breach_filter(es: Seq<Enemy>, cx: int, cy: int) -> Seq<Enemy>
    decreases es.len(),
{
    if es.len() == 0 {
        es
    } else {
        let rest = breach_filter(es.subrange(1, es.len() as int), cx, cy);
        if breached(es[0], cx, cy) {
            rest
        } else {
            seq![es[0]] + rest
        }
    }
}

/// Viewport dimensions the simulation accepts.
pub open spec fn dims_ok(dims: Point) -> bool {
    2 <= dims.x <= 4_000_000 && 2 <= dims.y <= 4_000_000
}

/// Remove bullets that left the viewport, resolve bullet-enemy
/// collisions in bullet order (each kill pays `KILL_REWARD`), then remove
/// enemies that reached the turret.
pub fn destroy_entities(
    dimensions: &Point,
    enemies: &mut Vec<Enemy>,
    bullets: &mut Vec<Bullet>,
    score: &mut i64,
)
    requires
        dims_ok(*dimensions),
        forall|k: int| 0 <= k < old(enemies)@.len() ==> point_ok(
            (#[trigger] old(enemies)@[k]).position,
        ),
        forall|k: int| 0 <= k < old(bullets)@.len() ==> point_ok(
            (#[trigger] old(bullets)@[k]).position,
        ),
        -100_000_000_000_000 <= *old(score) <= 100_000_000_000_000,
        old(bullets)@.len() <= 1_000_000,
    ensures
        ({
            let d = destroy_step(old(bullets)@, old(enemies)@, *dimensions, *old(score) as int);
            &&& final(bullets)@ == d.0
            &&& final(enemies)@ == breach_filter(
                d.1,
                dimensions.x as int / 2,
                dimensions.y as int / 2,
            )
            &&& *final(score) == d.2
            &&& *old(score) <= *final(score) <= *old(score) + KILL_REWARD * old(bullets)@.len()
        }),
{
    let ghost b0 = bullets@;
    let ghost e0 = enemies@;
    let ghost s0 = *score as int;
    let ghost d = destroy_step(b0, e0, *dimensions, s0);
    proof {
        assert(bullets@.subrange(0, 0int) =~= Seq::<Bullet>::empty());
        assert(bullets@.subrange(0int, bullets@.len() as int) =~= b0);
        assert(Seq::<Bullet>::empty() + d.0 =~= d.0);
    }
    let mut i: usize = 0;
    while i < bullets.len()
        invariant
            dims_ok(*dimensions),
            0 <= i <= bullets@.len(),
            bullets@.len() <= b0.len() <= 1_000_000,
            forall|k: int| 0 <= k < enemies@.len() ==> point_ok(
                (#[trigger] enemies@[k]).position,
            ),
            forall|k: int| 0 <= k < bullets@.len() ==> point_ok(
                (#[trigger] bullets@[k]).position,
            ),
            s0 <= *score <= s0 + KILL_REWARD * (b0.len() - (bullets@.len() - i)),
            -100_000_000_000_000 <= s0 <= 100_000_000_000_000,
            d == ({
                let x = destroy_step(
                    bullets@.subrange(i as int, bullets@.len() as int),
                    enemies@,
                    *dimensions,
                    *score as int,
                );
                (bullets@.subrange(0, i as int) + x.0, x.1, x.2)
            }),
        decreases bullets@.len() - i,
    {
        let ghost pre_b = bullets@;
        let ghost pre_e = enemies@;
        let ghost pre_s = *score as int;
        let ghost suffix = pre_b.subrange(i as int, pre_b.len() as int);
        proof {
            assert(suffix.len() > 0);
            assert(suffix[0] == pre_b[i as int]);
            assert(suffix.subrange(1, suffix.len() as int) =~= pre_b.subrange(
                i + 1 as int,
                pre_b.len() as int,
            ));
        }
        let bx = bullets[i].position.x;
        let by = bullets[i].position.y;
        if bx < 0 || bx > dimensions.x || by < 0 || by > dimensions.y {
            bullets.remove(i);
            proof {
                assert(bullets@ =~= pre_b.remove(i as int));
                assert(bullets@.subrange(i as int, bullets@.len() as int) =~= pre_b.subrange(
                    i + 1 as int,
                    pre_b.len() as int,
                ));
                assert(bullets@.subrange(0, i as int) =~= pre_b.subrange(0, i as int));
            }
        } else {
            let mut j: usize = 0;
            let mut hit: bool = false;
            while j < enemies.len() && !hit
                invariant
                    0 <= j <= enemies@.len(),
                    i < bullets@.len(),
                    bullets@ == pre_b,
                    hit ==> j < enemies@.len() && bullet_hits(
                        bullets@[i as int],
                        enemies@[j as int],
                    ),
                    forall|k: int| 0 <= k < j ==> !bullet_hits(
                        bullets@[i as int],
                        #[trigger] enemies@[k],
                    ),
                    forall|k: int| 0 <= k < enemies@.len() ==> point_ok(
                        (#[trigger] enemies@[k]).position,
                    ),
                    forall|k: int| 0 <= k < bullets@.len() ==> point_ok(
                        (#[trigger] bullets@[k]).position,
                    ),
                decreases enemies@.len() - j, (if hit { 0int } else { 1int }),
            {
                let dx = bullets[i].position.x - enemies[j].position.x;
                let dy = bullets[i].position.y - enemies[j].position.y;
                proof {
                    assert(dx * dx <= 4_100_000_000_000_000_000
                        && dy * dy <= 4_100_000_000_000_000_000 && dx * dx >= 0
                        && dy * dy >= 0) by (nonlinear_arith)
                        requires
                            -2_010_000_000 <= dx <= 2_010_000_000,
                            -2_010_000_000 <= dy <= 2_010_000_000,
                    ;
                }
                let d2 = dx * dx + dy * dy;
                if d2 <= HIT_RADIUS * HIT_RADIUS {
                    hit = true;
                } else {
                    j = j + 1;
                }
            }
            if hit {
                bullets.remove(i);
                enemies.remove(j);
                *score = *score + KILL_REWARD;
                proof {
                    lemma_first_hit_is(pre_b[i as int], pre_e, j as int);
                    assert(bullets@ =~= pre_b.remove(i as int));
                    assert(bullets@.subrange(i as int, bullets@.len() as int)
                        =~= pre_b.subrange(i + 1 as int, pre_b.len() as int));
                    assert(bullets@.subrange(0, i as int) =~= pre_b.subrange(0, i as int));
                }
            } else {
                proof {
                    lemma_first_hit_none(pre_b[i as int], pre_e);
                    let x = destroy_step(
                        pre_b.subrange(i + 1 as int, pre_b.len() as int),
                        pre_e,
                        *dimensions,
                        pre_s,
                    );
                    assert(pre_b.subrange(0, i as int) + (seq![pre_b[i as int]] + x.0)
                        =~= pre_b.subrange(0, i + 1 as int) + x.0);
                }
                i = i + 1;
            }
        }
    }
    proof {
        assert(bullets@.subrange(i as int, bullets@.len() as int) =~= Seq::<Bullet>::empty());
        assert(destroy_step(
            bullets@.subrange(i as int, bullets@.len() as int),
            enemies@,
            *dimensions,
            *score as int,
        ).0 =~= Seq::<Bullet>::empty());
        assert(bullets@.subrange(0, i as int) + Seq::<Bullet>::empty() =~= bullets@);
        assert(final(bullets)@ == d.0);
    }
    let cx = dimensions.x / 2;
    let cy = dimensions.y / 2;
    let ghost em = enemies@;
    proof {
        assert(enemies@.subrange(0, 0int) =~= Seq::<Enemy>::empty());
        assert(enemies@.subrange(0int, enemies@.len() as int) =~= em);
        assert(Seq::<Enemy>::empty() + breach_filter(em, cx as int, cy as int)
            =~= breach_filter(em, cx as int, cy as int));
    }
    let mut k: usize = 0;
    while k < enemies.len()
        invariant
            dims_ok(*dimensions),
            cx == dimensions.x as int / 2,
            cy == dimensions.y as int / 2,
            0 <= k <= enemies@.len(),
            forall|q: int| 0 <= q < enemies@.len() ==> point_ok(
                (#[trigger] enemies@[q]).position,
            ),
            breach_filter(em, cx as int, cy as int) == enemies@.subrange(0, k as int)
                + breach_filter(
                enemies@.subrange(k as int, enemies@.len() as int),
                cx as int,
                cy as int,
            ),
            forall|q: int| 0 <= q < k ==> !breached(#[trigger] enemies@[q], cx as int, cy as int),
        decreases enemies@.len() - k,
    {
        let ghost pre = enemies@;
        let ghost suffix = pre.subrange(k as int, pre.len() as int);
        proof {
            assert(suffix.len() > 0);
            assert(suffix[0] == pre[k as int]);
            assert(suffix.subrange(1, suffix.len() as int) =~= pre.subrange(
                k + 1 as int,
                pre.len() as int,
            ));
        }
        let ex = enemies[k].position.x - cx;
        let ey = enemies[k].position.y - cy;
        proof {
            assert(ex * ex <= 4_100_000_000_000_000_000 && ey * ey
                <= 4_100_000_000_000_000_000 && ex * ex >= 0 && ey * ey >= 0)
                by (nonlinear_arith)
                requires
                    -2_010_000_000 <= ex <= 2_010_000_000,
                    -2_010_000_000 <= ey <= 2_010_000_000,
            ;
        }
        let d2 = ex * ex + ey * ey;
        if d2 < BREACH_RADIUS * BREACH_RADIUS {
            enemies.remove(k);
            proof {
                assert(enemies@ =~= pre.remove(k as int));
                assert(enemies@.subrange(k as int, enemies@.len() as int) =~= pre.subrange(
                    k + 1 as int,
                    pre.len() as int,
                ));
                assert(enemies@.subrange(0, k as int) =~= pre.subrange(0, k as int));
            }
        } else {
            proof {
                let x = breach_filter(
                    pre.subrange(k + 1 as int, pre.len() as int),
                    cx as int,
                    cy as int,
                );
                assert(pre.subrange(0, k as int) + (seq![pre[k as int]] + x)
                    =~= pre.subrange(0, k + 1 as int) + x);
            }
            k = k + 1;
        }
    }
    proof {
        assert(enemies@.subrange(k as int, enemies@.len() as int) =~= Seq::<Enemy>::empty());
        assert(breach_filter(Seq::<Enemy>::empty(), cx as int, cy as int)
            =~= Seq::<Enemy>::empty());
        assert(enemies@.subrange(0, k as int) + Seq::<Enemy>::empty() =~= enemies@);
    }
}

/// Both coordinates of `p` within `bound / SCALE` of the centre.
pub open spec fn pos_within(p: Point, cx: int, cy: int, bound: int) -> bool {
    abs_spec(p.x - cx) * SCALE <= bound && abs_spec(p.y - cy) * SCALE <= bound
}

/// Velocity components within the fastest entity speed.
pub open spec fn speed_capped(v: Point) -> bool {
    -BULLET_SPEED <= v.x <= BULLET_SPEED && -BULLET_SPEED <= v.y <= BULLET_SPEED
}

/// The centre of the viewport.
pub fn get_center(dimensions: &Point) -> (r: (i64, i64))
    requires
        dims_ok(*dimensions),
    ensures
        r.0 == dimensions.x as int / 2,
        r.1 == dimensions.y as int / 2,
{
    (dimensions.x / 2, dimensions.y / 2)
}

/// The steering decision: the index of the strongest of the three
/// steering outputs, shifted to a turn direction in `{-1, 0, 1}`.
pub fn get_direction_decision(
    known_enemy_locations: &Vec<i64>,
    direction_ai: &NeuralNetwork,
) -> (r: i64)
    requires
        direction_ai.wf(),
        known_enemy_locations@.len() == direction_ai.input_size,
        seq_bounded(known_enemy_locations@, SCALE as int),
        direction_ai.output_size == 3,
        direction_ai.weights.deep_view().len() >= 1,
    ensures
        r == crate::ranking::first_max_index(
            direction_ai.infer_spec(known_enemy_locations@),
        ) - 1,
        -1 <= r <= 1,
{
    let out = direction_ai.run_unchecked(known_enemy_locations);
    let idx = crate::ranking::find_largest_index_unchecked(&out);
    idx as i64 - 1
}

/// The fire decision: whether the first of the two fire outputs is the
/// strongest.
pub fn get_shoot_decision(
    known_enemy_locations: &Vec<i64>,
    shooting_ai: &NeuralNetwork,
) -> (r: bool)
    requires
        shooting_ai.wf(),
        known_enemy_locations@.len() == shooting_ai.input_size,
        seq_bounded(known_enemy_locations@, SCALE as int),
        shooting_ai.output_size >= 1,
    ensures
        r <==> crate::ranking::first_max_index(
            shooting_ai.infer_spec(known_enemy_locations@),
        ) == 0,
{
    let out = shooting_ai.run_unchecked(known_enemy_locations);
    let idx = crate::ranking::find_largest_index_unchecked(&out);
    idx == 0
}

/// The bullet created at the turret's muzzle for a facing `direction`.
pub open spec fn spawned_bullet(b: Bullet, direction: int, cx: int, cy: int) -> bool {
    &&& b.position.x == cx + div_trunc(
        cos_spec(direction) * (CANNON_RADIUS + BARREL_HEIGHT),
        SCALE as int,
    )
    &&& b.position.y == cy + div_trunc(
        sin_spec(direction) * (CANNON_RADIUS + BARREL_HEIGHT),
        SCALE as int,
    )
    &&& b.direction == direction
    &&& b.velocity.x == div_trunc(cos_spec(direction) * BULLET_SPEED, SCALE as int)
    &&& b.velocity.y == div_trunc(sin_spec(direction) * BULLET_SPEED, SCALE as int)
}

/// Append a bullet at the turret muzzle, moving along the facing.
pub fn spawn_bullet(
    cannon: &Cannon,
    bullets: &mut Vec<Bullet>,
    dimensions: &Point,
)
    requires
        dims_ok(*dimensions),
        0 <= cannon.direction < TWO_PI,
    ensures
        final(bullets)@.len() == old(bullets)@.len() + 1,
        final(bullets)@.subrange(0, old(bullets)@.len() as int) == old(bullets)@,
        spawned_bullet(
            final(bullets)@.last(),
            cannon.direction as int,
            dimensions.x as int / 2,
            dimensions.y as int / 2,
        ),
        vel_ok(final(bullets)@.last().velocity),
        speed_capped(final(bullets)@.last().velocity),
        pos_within(
            final(bullets)@.last().position,
            dimensions.x as int / 2,
            dimensions.y as int / 2,
            500_000_000,
        ),
        point_ok(final(bullets)@.last().position),
{
    let (center_x, center_y) = get_center(dimensions);
    let direction = cannon.direction;
    let direction_cos = cos_fx(direction);
    let direction_sin = sin_fx(direction);
    proof {
        lemma_div_trunc_bounds(direction_cos * (CANNON_RADIUS + BARREL_HEIGHT), SCALE as int);
        lemma_div_trunc_bounds(direction_sin * (CANNON_RADIUS + BARREL_HEIGHT), SCALE as int);
        lemma_div_trunc_bounds(direction_cos * BULLET_SPEED, SCALE as int);
        lemma_div_trunc_bounds(direction_sin * BULLET_SPEED, SCALE as int);
    }
    let b = Bullet {
        position: Point {
            x: center_x + div_fx(direction_cos * (CANNON_RADIUS + BARREL_HEIGHT), SCALE),
            y: center_y + div_fx(direction_sin * (CANNON_RADIUS + BARREL_HEIGHT), SCALE),
        },
        direction,
        velocity: Point {
            x: div_fx(direction_cos * BULLET_SPEED, SCALE),
            y: div_fx(direction_sin * BULLET_SPEED, SCALE),
        },
    };
    let ghost pre = bullets@;
    bullets.push(b);
    proof {
        assert(final(bullets)@.subrange(0, pre.len() as int) =~= pre);
        assert(abs_spec(b.position.x - dimensions.x as int / 2) * SCALE <= 500_000_000)
            by (nonlinear_arith)
            requires
                abs_spec(b.position.x - dimensions.x as int / 2) <= 90_000,
                SCALE == 1000,
        ;
        assert(abs_spec(b.position.y - dimensions.y as int / 2) * SCALE <= 500_000_000)
            by (nonlinear_arith)
            requires
                abs_spec(b.position.y - dimensions.y as int / 2) <= 90_000,
                SCALE == 1000,
        ;
    }
}

/// The enemy created at bearing `theta` on the spawn ring, facing inward.
pub open spec fn spawned_enemy(e: Enemy, theta: int, cx: int, cy: int) -> bool {
    let facing = (theta + PI) % (TWO_PI as int);
    &&& e.position.x == cx + div_trunc(
        cos_spec(theta) * (crate::sensor::VIEW_RAY_LENGTH + ENEMY_SPAWN_DISTANCE),
        SCALE as int,
    )
    &&& e.position.y == cy + div_trunc(
        sin_spec(theta) * (crate::sensor::VIEW_RAY_LENGTH + ENEMY_SPAWN_DISTANCE),
        SCALE as int,
    )
    &&& e.direction == facing
    &&& e.velocity.x == div_trunc(ENEMY_SPEED * cos_spec(facing), SCALE as int)
    &&& e.velocity.y == div_trunc(ENEMY_SPEED * sin_spec(facing), SCALE as int)
}

/// Append an enemy at a random bearing on the spawn ring, moving inward
/// at the fixed enemy speed.
pub fn spawn_rand_enemy(enemies: &mut Vec<Enemy>, dimensions: &Point)
    requires
        dims_ok(*dimensions),
    ensures
        final(enemies)@.len() == old(enemies)@.len() + 1,
        final(enemies)@.subrange(0, old(enemies)@.len() as int) == old(enemies)@,
        exists|theta: int|
            0 <= theta < TWO_PI && #[trigger] spawned_enemy(
                final(enemies)@.last(),
                theta,
                dimensions.x as int / 2,
                dimensions.y as int / 2,
            ),
        vel_ok(final(enemies)@.last().velocity),
        speed_capped(final(enemies)@.last().velocity),
        pos_within(
            final(enemies)@.last().position,
            dimensions.x as int / 2,
            dimensions.y as int / 2,
            500_000_000,
        ),
        point_ok(final(enemies)@.last().position),
{
    let (center_x, center_y) = get_center(dimensions);
    let location_direction = random_in_range(0, TWO_PI);
    let facing_direction = wrap_angle(location_direction + PI);
    let loc_cos = cos_fx(location_direction);
    let loc_sin = sin_fx(location_direction);
    let face_cos = cos_fx(facing_direction);
    let face_sin = sin_fx(facing_direction);
    proof {
        lemma_div_trunc_bounds(
            loc_cos * (crate::sensor::VIEW_RAY_LENGTH + ENEMY_SPAWN_DISTANCE),
            SCALE as int,
        );
        lemma_div_trunc_bounds(
            loc_sin * (crate::sensor::VIEW_RAY_LENGTH + ENEMY_SPAWN_DISTANCE),
            SCALE as int,
        );
        lemma_div_trunc_bounds(ENEMY_SPEED * face_cos, SCALE as int);
        lemma_div_trunc_bounds(ENEMY_SPEED * face_sin, SCALE as int);
    }
    let e = Enemy {
        position: Point {
            x: center_x + div_fx(
                loc_cos * (crate::sensor::VIEW_RAY_LENGTH + ENEMY_SPAWN_DISTANCE),
                SCALE,
            ),
            y: center_y + div_fx(
                loc_sin * (crate::sensor::VIEW_RAY_LENGTH + ENEMY_SPAWN_DISTANCE),
                SCALE,
            ),
        },
        direction: facing_direction,
        velocity: Point {
            x: div_fx(ENEMY_SPEED * face_cos, SCALE),
            y: div_fx(ENEMY_SPEED * face_sin, SCALE),
        },
    };
    let ghost pre = enemies@;
    enemies.push(e);
    proof {
        assert(final(enemies)@.subrange(0, pre.len() as int) =~= pre);
        assert(enemies@.last() == e);
        assert(spawned_enemy(
            enemies@.last(),
            location_direction as int,
            dimensions.x as int / 2,
            dimensions.y as int / 2,
        ));
        assert(abs_spec(e.position.x - dimensions.x as int / 2) * SCALE <= 500_000_000)
            by (nonlinear_arith)
            requires
                abs_spec(e.position.x - dimensions.x as int / 2) <= 401_000,
                SCALE == 1000,
        ;
        assert(abs_spec(e.position.y - dimensions.y as int / 2) * SCALE <= 500_000_000)
            by (nonlinear_arith)
            requires
                abs_spec(e.position.y - dimensions.y as int / 2) <= 401_000,
                SCALE == 1000,
        ;
    }
}

/// The position `post` one step of `vel * dt` after `pre`.
pub open spec fn stepped(pre: Point, vel: Point, post: Point, dt: int) -> bool {
    &&& post.x == pre.x + div_trunc(vel.x * dt, SCALE as int)
    &&& post.y == pre.y + div_trunc(vel.y * dt, SCALE as int)
}

/// The create phase: spawn an enemy when the enemy cooldown has elapsed;
/// when the fire cooldown has elapsed, consult the fire network and on a
/// positive decision spawn a bullet and pay the shot cost.
pub fn create_entities(
    score: &mut i64,
    time_since_enemy: &mut i64,
    time_since_bullet: &mut i64,
    known_enemy_locations: &Vec<i64>,
    dimensions: &Point,
    shooting_ai: &NeuralNetwork,
    cannon: &Cannon,
    bullets: &mut Vec<Bullet>,
    enemies: &mut Vec<Enemy>,
)
    requires
        dims_ok(*dimensions),
        0 <= cannon.direction < TWO_PI,
        shooting_ai.wf(),
        known_enemy_locations@.len() == shooting_ai.input_size,
        seq_bounded(known_enemy_locations@, SCALE as int),
        shooting_ai.output_size >= 1,
        -100_000_000_000_000 <= *old(score) <= 100_000_000_000_000,
    ensures
        ({
            let cx = dimensions.x as int / 2;
            let cy = dimensions.y as int / 2;
            &&& (*old(time_since_enemy) >= ENEMY_COOLDOWN ==> {
                &&& *final(time_since_enemy) == 0
                &&& final(enemies)@.len() == old(enemies)@.len() + 1
                &&& final(enemies)@.subrange(0, old(enemies)@.len() as int)
                    == old(enemies)@
                &&& exists|theta: int|
                    0 <= theta < TWO_PI && #[trigger] spawned_enemy(
                        final(enemies)@.last(),
                        theta,
                        cx,
                        cy,
                    )
                &&& vel_ok(final(enemies)@.last().velocity)
                &&& speed_capped(final(enemies)@.last().velocity)
                &&& pos_within(final(enemies)@.last().position, cx, cy, 500_000_000)
                &&& point_ok(final(enemies)@.last().position)
            })
            &&& (*old(time_since_enemy) < ENEMY_COOLDOWN ==> *final(time_since_enemy)
                == *old(time_since_enemy) && final(enemies)@ == old(enemies)@)
            &&& ({
                let fires = *old(time_since_bullet) >= BULLET_COOLDOWN
                    && crate::ranking::first_max_index(
                    shooting_ai.infer_spec(known_enemy_locations@),
                ) == 0;
                &&& (fires ==> {
                    &&& *final(time_since_bullet) == 0
                    &&& *final(score) == *old(score) - SHOT_COST
                    &&& final(bullets)@.len() == old(bullets)@.len() + 1
                    &&& final(bullets)@.subrange(0, old(bullets)@.len() as int)
                        == old(bullets)@
                    &&& spawned_bullet(
                        final(bullets)@.last(),
                        cannon.direction as int,
                        cx,
                        cy,
                    )
                    &&& vel_ok(final(bullets)@.last().velocity)
                    &&& speed_capped(final(bullets)@.last().velocity)
                    &&& pos_within(final(bullets)@.last().position, cx, cy, 500_000_000)
                    &&& point_ok(final(bullets)@.last().position)
                })
                &&& (!fires ==> *final(time_since_bullet) == *old(time_since_bullet)
                    && *final(score) == *old(score) && final(bullets)@ == old(bullets)@)
            })
        }),
{
    if *time_since_enemy >= ENEMY_COOLDOWN {
        *time_since_enemy = 0;
        spawn_rand_enemy(enemies, dimensions);
    }
    if *time_since_bullet >= BULLET_COOLDOWN {
        let shooting_decision = get_shoot_decision(known_enemy_locations, shooting_ai);
        if shooting_decision {
            *time_since_bullet = 0;
            *score = *score - SHOT_COST;
            spawn_bullet(cannon, bullets, dimensions);
        }
    }
}

/// The update phase: rotate the turret by the steering decision, pay the
/// rotation penalty, and advance every enemy and bullet by its velocity.
pub fn update_entites(
    delta_time: i64,
    score: &mut i64,
    known_enemy_locations: &Vec<i64>,
    direction_ai: &NeuralNetwork,
    cannon: &mut Cannon,
    bullets: &mut Vec<Bullet>,
    enemies: &mut Vec<Enemy>,
)
    requires
        0 < delta_time <= DT_LIMIT,
        0 <= old(cannon).direction < TWO_PI,
        direction_ai.wf(),
        known_enemy_locations@.len() == direction_ai.input_size,
        seq_bounded(known_enemy_locations@, SCALE as int),
        direction_ai.output_size == 3,
        direction_ai.weights.deep_view().len() >= 1,
        forall|k: int| 0 <= k < old(enemies)@.len() ==> point_ok(
            (#[trigger] old(enemies)@[k]).position,
        ) && vel_ok(old(enemies)@[k].velocity),
        forall|k: int| 0 <= k < old(bullets)@.len() ==> point_ok(
            (#[trigger] old(bullets)@[k]).position,
        ) && vel_ok(old(bullets)@[k].velocity),
        -100_000_000_000_000 <= *old(score) <= 100_000_000_000_000,
    ensures
        ({
            let dec = crate::ranking::first_max_index(
                direction_ai.infer_spec(known_enemy_locations@),
            ) - 1;
            let mag = (GUN_ROTATE_VELOCITY * delta_time) / (SCALE as int);
            let delta = dec * mag;
            &&& final(cannon).direction == (old(cannon).direction + delta) % (
                TWO_PI as int)
            &&& 0 <= final(cannon).direction < TWO_PI
            &&& final(cannon).position == old(cannon).position
            &&& *final(score) == *old(score) - (abs_spec(delta) * SCALE) / (TWO_PI as int)
            &&& *old(score) - 7200 <= *final(score) <= *old(score)
        }),
        final(enemies)@.len() == old(enemies)@.len(),
        forall|k: int| 0 <= k < old(enemies)@.len() ==> stepped(
            old(enemies)@[k].position,
            old(enemies)@[k].velocity,
            (#[trigger] final(enemies)@[k]).position,
            delta_time as int,
        ) && final(enemies)@[k].velocity == old(enemies)@[k].velocity
            && final(enemies)@[k].direction == old(enemies)@[k].direction,
        final(bullets)@.len() == old(bullets)@.len(),
        forall|k: int| 0 <= k < old(bullets)@.len() ==> stepped(
            old(bullets)@[k].position,
            old(bullets)@[k].velocity,
            (#[trigger] final(bullets)@[k]).position,
            delta_time as int,
        ) && final(bullets)@[k].velocity == old(bullets)@[k].velocity
            && final(bullets)@[k].direction == old(bullets)@[k].direction,
{
    let direction_decision = get_direction_decision(known_enemy_locations, direction_ai);
    let mag = (GUN_ROTATE_VELOCITY * delta_time) / SCALE;
    proof {
        assert(0 <= GUN_ROTATE_VELOCITY * delta_time <= 45_000_000) by (nonlinear_arith)
            requires
                0 < delta_time <= 60_000,
        ;
        assert(-45_000 <= direction_decision * mag <= 45_000 && abs_spec(
            direction_decision * mag,
        ) <= mag) by (nonlinear_arith)
            requires
                -1 <= direction_decision <= 1,
                0 <= mag <= 45_000,
        ;
    }
    let delta_direction = direction_decision * mag;
    cannon.direction = wrap_angle(cannon.direction + delta_direction);
    let penalty = (abs_fx(delta_direction) * SCALE) / TWO_PI;
    *score = *score - penalty;
    let mut k: usize = 0;
    let ghost e0 = enemies@;
    while k < enemies.len()
        invariant
            0 <= k <= e0.len(),
            enemies@.len() == e0.len(),
            0 < delta_time <= DT_LIMIT,
            forall|q: int| k <= q < e0.len() ==> #[trigger] enemies@[q] == e0[q],
            forall|q: int| 0 <= q < e0.len() ==> point_ok((#[trigger] e0[q]).position)
                && vel_ok(e0[q].velocity),
            forall|q: int| 0 <= q < k ==> stepped(
                e0[q].position,
                e0[q].velocity,
                (#[trigger] enemies@[q]).position,
                delta_time as int,
            ) && enemies@[q].velocity == e0[q].velocity && enemies@[q].direction
                == e0[q].direction,
        decreases e0.len() - k,
    {
        let enemy = &mut enemies[k];
        enemy.update(delta_time);
        k = k + 1;
    }
    let mut k: usize = 0;
    let ghost bl0 = bullets@;
    while k < bullets.len()
        invariant
            0 <= k <= bl0.len(),
            bullets@.len() == bl0.len(),
            0 < delta_time <= DT_LIMIT,
            forall|q: int| k <= q < bl0.len() ==> #[trigger] bullets@[q] == bl0[q],
            forall|q: int| 0 <= q < bl0.len() ==> point_ok((#[trigger] bl0[q]).position)
                && vel_ok(bl0[q].velocity),
            forall|q: int| 0 <= q < k ==> stepped(
                bl0[q].position,
                bl0[q].velocity,
                (#[trigger] bullets@[q]).position,
                delta_time as int,
            ) && bullets@[q].velocity == bl0[q].velocity && bullets@[q].direction
                == bl0[q].direction,
        decreases bl0.len() - k,
    {
        let bullet = &mut bullets[k];
        bullet.update(delta_time);
        k = k + 1;
    }
}

/// Law: whatever else is in flight, an in-bounds projectile whose first
/// hit is enemy `j` is removed together with that enemy in the same
/// destroy pass, the score rises by exactly one kill reward, and the
/// remaining projectiles continue against the remaining enemies.
pub proof fn lemma_destroy_hit_head(
    b: Bullet,
    rest: Seq<Bullet>,
    enemies: Seq<Enemy>,
    dims: Point,
    score: int,
    j: int,
)
    requires
        !bullet_oob(b, dims),
        0 <= j < enemies.len(),
        bullet_hits(b, enemies[j]),
        forall|k: int| 0 <= k < j ==> !bullet_hits(b, #[trigger] enemies[k]),
    ensures
        destroy_step(seq![b] + rest, enemies, dims, score) == destroy_step(
            rest,
            enemies.remove(j),
            dims,
            score + KILL_REWARD,
        ),
{
    lemma_first_hit_is(b, enemies, j);
    let bs = seq![b] + rest;
    assert(bs[0] == b);
    assert(bs.subrange(1, bs.len() as int) =~= rest);
}

/// Law: whatever else is in flight, a projectile at the head that has
/// crossed the viewport boundary is removed with no score change, and the
/// remaining projectiles continue against the same enemies.
pub proof fn lemma_destroy_oob_head(
    b: Bullet,
    rest: Seq<Bullet>,
    enemies: Seq<Enemy>,
    dims: Point,
    score: int,
)
    requires
        bullet_oob(b, dims),
    ensures
        destroy_step(seq![b] + rest, enemies, dims, score) == destroy_step(
            rest,
            enemies,
            dims,
            score,
        ),
{
    let bs = seq![b] + rest;
    assert(bs[0] == b);
    assert(bs.subrange(1, bs.len() as int) =~= rest);
}

/// Law: a projectile and an enemy whose centres are within the hit radius
/// are both removed by the destroy phase, and the score rises by exactly
/// one kill reward.
pub proof fn lemma_destroy_hit_pair(b: Bullet, e: Enemy, dims: Point, score: int)
    requires
        !bullet_oob(b, dims),
        bullet_hits(b, e),
    ensures
        destroy_step(seq![b], seq![e], dims, score) == (
            Seq::<Bullet>::empty(),
            Seq::<Enemy>::empty(),
            score + KILL_REWARD,
        ),
{
    reveal_with_fuel(destroy_step, 3);
    let bs = seq![b];
    let es = seq![e];
    lemma_first_hit_is(b, es, 0);
    assert(bs.len() == 1 && bs[0] == b && es.len() == 1);
    let rest = bs.subrange(1, 1);
    let es2 = es.remove(0);
    assert(rest =~= Seq::<Bullet>::empty());
    assert(es2 =~= Seq::<Enemy>::empty());
    assert(destroy_step(rest, es2, dims, score + KILL_REWARD) == (
        rest,
        es2,
        score + KILL_REWARD,
    ));
    assert(destroy_step(bs, es, dims, score) == destroy_step(
        rest,
        es2,
        dims,
        score + KILL_REWARD,
    ));
}

/// Law: a projectile that crossed the viewport boundary is removed with no
/// score change, leaving the enemies untouched.
pub proof fn lemma_destroy_oob_bullet(b: Bullet, enemies: Seq<Enemy>, dims: Point, score: int)
    requires
        bullet_oob(b, dims),
    ensures
        destroy_step(seq![b], enemies, dims, score) == (
            Seq::<Bullet>::empty(),
            enemies,
            score,
        ),
{
    reveal_with_fuel(destroy_step, 3);
    let bs = seq![b];
    assert(bs.len() == 1 && bs[0] == b);
    let rest = bs.subrange(1, 1);
    assert(rest =~= Seq::<Bullet>::empty());
    assert(destroy_step(rest, enemies, dims, score) == (rest, enemies, score));
    assert(destroy_step(bs, enemies, dims, score) == destroy_step(
        rest,
        enemies,
        dims,
        score,
    ));
}

/// Positions and velocities of the bullets and enemies that survive the
/// bullet half of the destroy phase were already present beforehand, so
/// they keep any centre-distance bound and velocity bound.
pub proof fn lemma_destroy_step_bounds(
    bullets: Seq<Bullet>,
    enemies: Seq<Enemy>,
    dims: Point,
    score: int,
    cx: int,
    cy: int,
    bound: int,
)
    requires
        forall|k: int| 0 <= k < bullets.len() ==> pos_within(
            (#[trigger] bullets[k]).position,
            cx,
            cy,
            bound,
        ) && speed_capped(bullets[k].velocity) && point_ok(bullets[k].position),
        forall|k: int| 0 <= k < enemies.len() ==> pos_within(
            (#[trigger] enemies[k]).position,
            cx,
            cy,
            bound,
        ) && speed_capped(enemies[k].velocity) && point_ok(enemies[k].position),
    ensures
        ({
            let d = destroy_step(bullets, enemies, dims, score);
            &&& d.0.len() <= bullets.len()
            &&& d.1.len() <= enemies.len()
            &&& forall|k: int| 0 <= k < d.0.len() ==> pos_within(
                (#[trigger] d.0[k]).position,
                cx,
                cy,
                bound,
            ) && speed_capped(d.0[k].velocity) && point_ok(d.0[k].position)
            &&& forall|k: int| 0 <= k < d.1.len() ==> pos_within(
                (#[trigger] d.1[k]).position,
                cx,
                cy,
                bound,
            ) && speed_capped(d.1[k].velocity) && point_ok(d.1[k].position)
        }),
    decreases bullets.len(),
{
    if bullets.len() > 0 {
        let b = bullets[0];
        let rest = bullets.subrange(1, bullets.len() as int);
        assert(forall|k: int| 0 <= k < rest.len() ==> #[trigger] rest[k] == bullets[k + 1]);
        if bullet_oob(b, dims) {
            lemma_destroy_step_bounds(rest, enemies, dims, score, cx, cy, bound);
        } else {
            let j = first_hit(b, enemies);
            if j == -1 {
                lemma_destroy_step_bounds(rest, enemies, dims, score, cx, cy, bound);
            } else {
                lemma_first_hit_props(b, enemies);
                let es = enemies.remove(j);
                assert(forall|k: int| 0 <= k < es.len() ==> #[trigger] es[k] == (
                    if k < j {
                        enemies[k]
                    } else {
                        enemies[k + 1]
                    }
                ));
                lemma_destroy_step_bounds(rest, es, dims, score + KILL_REWARD, cx, cy, bound);
            }
        }
    }
}

/// The enemies that survive the breach half of the destroy phase were
/// already present beforehand, so they keep any bound measured from
/// `(bx, by)`, whatever centre `(cx, cy)` the breach test used.
pub proof fn lemma_breach_filter_bounds(
    enemies: Seq<Enemy>,
    cx: int,
    cy: int,
    bx: int,
    by: int,
    bound: int,
)
    requires
        forall|k: int| 0 <= k < enemies.len() ==> pos_within(
            (#[trigger] enemies[k]).position,
            bx,
            by,
            bound,
        ) && speed_capped(enemies[k].velocity) && point_ok(enemies[k].position),
    ensures
        ({
            let f = breach_filter(enemies, cx, cy);
            &&& f.len() <= enemies.len()
            &&& forall|k: int| 0 <= k < f.len() ==> pos_within(
                (#[trigger] f[k]).position,
                bx,
                by,
                bound,
            ) && speed_capped(f[k].velocity) && point_ok(f[k].position)
        }),
    decreases enemies.len(),
{
    if enemies.len() > 0 {
        let rest = enemies.subrange(1, enemies.len() as int);
        assert(forall|k: int| 0 <= k < rest.len() ==> #[trigger] rest[k] == enemies[k + 1]);
        lemma_breach_filter_bounds(rest, cx, cy, bx, by, bound);
    }
}


} // verus!
