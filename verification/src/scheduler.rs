//! The generational scheduler: per-candidate world state, the verified
//! simulation tick, the fixed training window, and the rank-and-reseed
//! step between generations.

use vstd::prelude::*;
use crate::fixed::{SCALE, TWO_PI, abs_spec};
use crate::entity::{Point, Cannon, Bullet, Enemy, point_ok, DT_LIMIT};
use crate::neural_network::{NeuralNetwork, tweaked_tensor, tweaked_mat};
use crate::sensor::{sensor_spec, get_known_enemy_locations, TOTAL_VIEW_RAYS};
use crate::simulation::{
    destroy_step, breach_filter, destroy_entities, create_entities, update_entites,
    spawned_enemy, spawned_bullet, stepped, pos_within, speed_capped, dims_ok,
    lemma_destroy_step_bounds, lemma_breach_filter_bounds,
    BULLET_COOLDOWN, ENEMY_COOLDOWN, KILL_REWARD, SHOT_COST, GUN_ROTATE_VELOCITY,
};
use crate::ranking::{find_n_lowest_indices, rank_donors, lex_lt, donor_before, first_max_index, distinct_indices};

verus! {

/// Length of one training window, in milli-time-units.
pub const TRAINING_TIME: i64 = 60_000;

/// The synthetic step used in fast-forward mode, in milli-time-units.
pub const FAST_DELTA_TIME: i64 = 5;

/// Perturbation bound applied when reseeding networks.
pub const MAX_TWEAK_CHANGE: i64 = 50;

/// Initial value of the enemy spawn cooldown clock.
pub const INITIAL_TIME_SINCE_ENEMY: i64 = 1_000;

/// One population member's world: its turret, projectiles, enemies,
/// score and clocks.
pub struct Candidate {
    pub cannon: Cannon,
    pub bullets: Vec<Bullet>,
    pub enemies: Vec<Enemy>,
    pub score: i64,
    pub elapsed_time: i64,
    pub time_since_enemy: i64,
    pub time_since_bullet: i64,
}

/// How far from the origin an entity can be after `elapsed` time, scaled
/// by `SCALE`: the largest viewport centre plus the spawn ring, plus the
/// fastest speed times the elapsed time.
pub open spec fn ent_bound(elapsed: int) -> int {
    2_500_000_000 + 100_000 * elapsed
}

/// The candidate invariant: clocks within the window, facing angle
/// reduced, every entity within the reach bound for the elapsed time and
/// under the speed cap, spawn budgets consistent with the clocks, and the
/// score within its growth envelope.
pub open spec fn candidate_inv(c: Candidate, dims: Point) -> bool {
    &&& dims_ok(dims)
    &&& 0 <= c.elapsed_time <= TRAINING_TIME + DT_LIMIT
    &&& 0 <= c.cannon.direction < TWO_PI
    &&& 0 <= c.time_since_enemy <= c.elapsed_time + INITIAL_TIME_SINCE_ENEMY
    &&& 0 <= c.time_since_bullet <= c.elapsed_time
    &&& c.bullets@.len() * BULLET_COOLDOWN + c.time_since_bullet <= c.elapsed_time
        + BULLET_COOLDOWN
    &&& c.enemies@.len() * ENEMY_COOLDOWN + c.time_since_enemy <= c.elapsed_time
        + ENEMY_COOLDOWN
    &&& forall|k: int| 0 <= k < c.bullets@.len() ==> pos_within(
        (#[trigger] c.bullets@[k]).position,
        0,
        0,
        ent_bound(c.elapsed_time as int),
    ) && speed_capped(c.bullets@[k].velocity) && point_ok(c.bullets@[k].position)
    &&& forall|k: int| 0 <= k < c.enemies@.len() ==> pos_within(
        (#[trigger] c.enemies@[k]).position,
        0,
        0,
        ent_bound(c.elapsed_time as int),
    ) && speed_capped(c.enemies@[k].velocity) && point_ok(c.enemies@[k].position)
    &&& abs_spec(c.score as int) <= c.elapsed_time * c.elapsed_time + 9_000
        * c.elapsed_time
}

/// A steering network as the scheduler uses it: twenty inputs, three
/// outputs, at least one layer transition.
pub open spec fn steering_net_ok(n: NeuralNetwork) -> bool {
    &&& n.wf()
    &&& n.input_size == TOTAL_VIEW_RAYS
    &&& n.output_size == 3
    &&& n.weights.deep_view().len() >= 1
}

/// A fire network as the scheduler uses it: twenty inputs, two outputs,
/// at least one layer transition.
pub open spec fn fire_net_ok(n: NeuralNetwork) -> bool {
    &&& n.wf()
    &&& n.input_size == TOTAL_VIEW_RAYS
    &&& n.output_size == 2
    &&& n.weights.deep_view().len() >= 1
}

/// The fixed steering topology: twenty inputs, one hidden layer of ten,
/// three outputs.
pub open spec fn steering_layer_shape(n: NeuralNetwork) -> bool {
    &&& n.input_size == TOTAL_VIEW_RAYS
    &&& n.output_size == 3
    &&& n.weights.deep_view().len() == 2
    &&& n.weights.deep_view()[0].len() == TOTAL_VIEW_RAYS / 2
    &&& n.weights.deep_view()[1].len() == 3
}

/// The fixed fire topology: twenty inputs, one hidden layer of ten, two
/// outputs.
pub open spec fn fire_layer_shape(n: NeuralNetwork) -> bool {
    &&& n.input_size == TOTAL_VIEW_RAYS
    &&& n.output_size == 2
    &&& n.weights.deep_view().len() == 2
    &&& n.weights.deep_view()[0].len() == TOTAL_VIEW_RAYS / 2
    &&& n.weights.deep_view()[1].len() == 2
}

/// A fresh candidate: turret at the default centre facing along the x
/// axis, no entities, zero score and clocks, with the enemy clock given a
/// head start.
pub fn new_candidate() -> (c: Candidate)
    ensures
        c.cannon.direction == 0,
        c.cannon.position.x == 400_000,
        c.cannon.position.y == 300_000,
        c.bullets@.len() == 0,
        c.enemies@.len() == 0,
        c.score == 0,
        c.elapsed_time == 0,
        c.time_since_enemy == INITIAL_TIME_SINCE_ENEMY,
        c.time_since_bullet == 0,
        forall|dims: Point| dims_ok(dims) ==> candidate_inv(c, dims),
{
    let c = Candidate {
        cannon: Cannon::new(),
        bullets: Vec::new(),
        enemies: Vec::new(),
        score: 0,
        elapsed_time: 0,
        time_since_enemy: INITIAL_TIME_SINCE_ENEMY,
        time_since_bullet: 0,
    };
    proof {
        assert forall|dims: Point| dims_ok(dims) implies candidate_inv(c, dims) by {
            assert(c.bullets@.len() * BULLET_COOLDOWN == 0) by (nonlinear_arith)
                requires
                    c.bullets@.len() == 0,
            ;
            assert(c.enemies@.len() * ENEMY_COOLDOWN == 0) by (nonlinear_arith)
                requires
                    c.enemies@.len() == 0,
            ;
        }
    }
    c
}

/// The time bump at the top of a tick.
pub open spec fn phase_time(pre: Candidate, a: Candidate, dt: int) -> bool {
    &&& a.elapsed_time == pre.elapsed_time + dt
    &&& a.time_since_enemy == pre.time_since_enemy + dt
    &&& a.time_since_bullet == pre.time_since_bullet + dt
    &&& a.cannon == pre.cannon
    &&& a.bullets@ == pre.bullets@
    &&& a.enemies@ == pre.enemies@
    &&& a.score == pre.score
}

/// The destroy phase as a relation between candidate states.
pub open spec fn phase_destroy(a: Candidate, b: Candidate, dims: Point) -> bool {
    let d = destroy_step(a.bullets@, a.enemies@, dims, a.score as int);
    &&& b.bullets@ == d.0
    &&& b.enemies@ == breach_filter(d.1, dims.x as int / 2, dims.y as int / 2)
    &&& b.score == d.2
    &&& b.cannon == a.cannon
    &&& b.elapsed_time == a.elapsed_time
    &&& b.time_since_enemy == a.time_since_enemy
    &&& b.time_since_bullet == a.time_since_bullet
}

/// The create phase as a relation between candidate states, reading the
/// sensor vector `sensed`.
pub open spec fn phase_create(
    b: Candidate,
    c: Candidate,
    sensed: Seq<i64>,
    shooting_ai: NeuralNetwork,
    dims: Point,
) -> bool {
    let cx = dims.x as int / 2;
    let cy = dims.y as int / 2;
    let fires = b.time_since_bullet >= BULLET_COOLDOWN && first_max_index(
        shooting_ai.infer_spec(sensed),
    ) == 0;
    &&& (b.time_since_enemy >= ENEMY_COOLDOWN ==> {
        &&& c.time_since_enemy == 0
        &&& c.enemies@.len() == b.enemies@.len() + 1
        &&& c.enemies@.subrange(0, b.enemies@.len() as int) == b.enemies@
        &&& exists|theta: int|
            0 <= theta < TWO_PI && #[trigger] spawned_enemy(c.enemies@.last(), theta, cx, cy)
    })
    &&& (b.time_since_enemy < ENEMY_COOLDOWN ==> c.time_since_enemy == b.time_since_enemy
        && c.enemies@ == b.enemies@)
    &&& (fires ==> {
        &&& c.time_since_bullet == 0
        &&& c.score == b.score - SHOT_COST
        &&& c.bullets@.len() == b.bullets@.len() + 1
        &&& c.bullets@.subrange(0, b.bullets@.len() as int) == b.bullets@
        &&& spawned_bullet(c.bullets@.last(), b.cannon.direction as int, cx, cy)
    })
    &&& (!fires ==> c.time_since_bullet == b.time_since_bullet && c.score == b.score
        && c.bullets@ == b.bullets@)
    &&& c.cannon == b.cannon
    &&& c.elapsed_time == b.elapsed_time
}

/// The update phase as a relation between candidate states, reading the
/// sensor vector `sensed`.
pub open spec fn phase_update(
    c: Candidate,
    post: Candidate,
    sensed: Seq<i64>,
    direction_ai: NeuralNetwork,
    dt: int,
) -> bool {
    let dec = first_max_index(direction_ai.infer_spec(sensed)) - 1;
    let mag = (GUN_ROTATE_VELOCITY * dt) / (SCALE as int);
    let delta = dec * mag;
    &&& post.cannon.direction == (c.cannon.direction + delta) % (TWO_PI as int)
    &&& post.cannon.position == c.cannon.position
    &&& post.score == c.score - (abs_spec(delta) * SCALE) / (TWO_PI as int)
    &&& post.enemies@.len() == c.enemies@.len()
    &&& forall|k: int| 0 <= k < c.enemies@.len() ==> stepped(
        c.enemies@[k].position,
        c.enemies@[k].velocity,
        (#[trigger] post.enemies@[k]).position,
        dt,
    ) && post.enemies@[k].velocity == c.enemies@[k].velocity && post.enemies@[k].direction
        == c.enemies@[k].direction
    &&& post.bullets@.len() == c.bullets@.len()
    &&& forall|k: int| 0 <= k < c.bullets@.len() ==> stepped(
        c.bullets@[k].position,
        c.bullets@[k].velocity,
        (#[trigger] post.bullets@[k]).position,
        dt,
    ) && post.bullets@[k].velocity == c.bullets@[k].velocity && post.bullets@[k].direction
        == c.bullets@[k].direction
    &&& post.elapsed_time == c.elapsed_time
    &&& post.time_since_enemy == c.time_since_enemy
    &&& post.time_since_bullet == c.time_since_bullet
}

/// One tick relates its pre- and post-state through the four phases in
/// order — Destroy, Sense, Create, Update — with the clocks bumped first
/// and one sensor vector shared by the create and update phases.
pub open spec fn tick_rel(
    pre: Candidate,
    post: Candidate,
    direction_ai: NeuralNetwork,
    shooting_ai: NeuralNetwork,
    dims: Point,
    dt: int,
) -> bool {
    exists|a: Candidate, b: Candidate, c: Candidate|
        #![trigger phase_time(pre, a, dt), phase_destroy(a, b, dims), phase_create(
            b,
            c,
            sensor_spec(
                b.cannon.direction as int,
                dims.x as int / 2,
                dims.y as int / 2,
                b.enemies@,
            ),
            shooting_ai,
            dims,
        )]
        {
            &&& phase_time(pre, a, dt)
            &&& phase_destroy(a, b, dims)
            &&& phase_create(
                b,
                c,
                sensor_spec(
                    b.cannon.direction as int,
                    dims.x as int / 2,
                    dims.y as int / 2,
                    b.enemies@,
                ),
                shooting_ai,
                dims,
            )
            &&& phase_update(
                c,
                post,
                sensor_spec(
                    b.cannon.direction as int,
                    dims.x as int / 2,
                    dims.y as int / 2,
                    b.enemies@,
                ),
                direction_ai,
                dt,
            )
        }
}

/// One simulation tick for one candidate: bump the clocks, then run the
/// Destroy, Sense, Create and Update phases in order.
pub fn tick(
    candidate: &mut Candidate,
    direction_ai: &NeuralNetwork,
    shooting_ai: &NeuralNetwork,
    dimensions: &Point,
    delta_time: i64,
)
    requires
        candidate_inv(*old(candidate), *dimensions),
        old(candidate).elapsed_time <= TRAINING_TIME,
        0 < delta_time <= DT_LIMIT,
        steering_net_ok(*direction_ai),
        fire_net_ok(*shooting_ai),
    ensures
        candidate_inv(*final(candidate), *dimensions),
        final(candidate).elapsed_time == old(candidate).elapsed_time + delta_time,
        tick_rel(
            *old(candidate),
            *final(candidate),
            *direction_ai,
            *shooting_ai,
            *dimensions,
            delta_time as int,
        ),
{
    let ghost pre = *old(candidate);
    let ghost cx = dimensions.x as int / 2;
    let ghost cy = dimensions.y as int / 2;
    let dt = delta_time;
    candidate.elapsed_time = candidate.elapsed_time + dt;
    candidate.time_since_enemy = candidate.time_since_enemy + dt;
    candidate.time_since_bullet = candidate.time_since_bullet + dt;
    let ghost st_a = *candidate;
    proof {
        assert(candidate.bullets@.len() * BULLET_COOLDOWN <= pre.elapsed_time
            + BULLET_COOLDOWN);
        assert(candidate.bullets@.len() <= 62) by (nonlinear_arith)
            requires
                candidate.bullets@.len() * 2_000 <= 122_000,
        ;
        assert(abs_spec(candidate.score as int) <= 15_000_000_000) by (nonlinear_arith)
            requires
                abs_spec(candidate.score as int) <= pre.elapsed_time * pre.elapsed_time
                    + 9_000 * pre.elapsed_time,
                0 <= pre.elapsed_time <= 60_000,
        ;
    }
    destroy_entities(
        dimensions,
        &mut candidate.enemies,
        &mut candidate.bullets,
        &mut candidate.score,
    );
    let ghost st_b = *candidate;
    proof {
        lemma_destroy_step_bounds(
            st_a.bullets@,
            st_a.enemies@,
            *dimensions,
            st_a.score as int,
            0,
            0,
            ent_bound(pre.elapsed_time as int),
        );
        let d = destroy_step(st_a.bullets@, st_a.enemies@, *dimensions, st_a.score as int);
        lemma_breach_filter_bounds(d.1, cx, cy, 0, 0, ent_bound(pre.elapsed_time as int));
    }
    let center = Point { x: dimensions.x / 2, y: dimensions.y / 2 };
    let known_enemy_locations = get_known_enemy_locations(
        candidate.cannon.direction,
        center,
        &candidate.enemies,
    );
    create_entities(
        &mut candidate.score,
        &mut candidate.time_since_enemy,
        &mut candidate.time_since_bullet,
        &known_enemy_locations,
        dimensions,
        shooting_ai,
        &candidate.cannon,
        &mut candidate.bullets,
        &mut candidate.enemies,
    );
    let ghost st_c = *candidate;
    proof {
        assert forall|k: int| 0 <= k < candidate.bullets@.len() implies pos_within(
            (#[trigger] candidate.bullets@[k]).position,
            0,
            0,
            ent_bound(pre.elapsed_time as int),
        ) && speed_capped(candidate.bullets@[k].velocity) && point_ok(
            candidate.bullets@[k].position,
        ) by {
            if k < st_b.bullets@.len() {
                assert(candidate.bullets@[k] == st_b.bullets@[k]);
            } else {
                let p = candidate.bullets@[k].position;
                assert(abs_spec(p.x as int) <= abs_spec(p.x - cx) + abs_spec(cx));
                assert(abs_spec(p.y as int) <= abs_spec(p.y - cy) + abs_spec(cy));
            }
        }
        assert forall|k: int| 0 <= k < candidate.enemies@.len() implies pos_within(
            (#[trigger] candidate.enemies@[k]).position,
            0,
            0,
            ent_bound(pre.elapsed_time as int),
        ) && speed_capped(candidate.enemies@[k].velocity) && point_ok(
            candidate.enemies@[k].position,
        ) by {
            if k < st_b.enemies@.len() {
                assert(candidate.enemies@[k] == st_b.enemies@[k]);
            } else {
                let p = candidate.enemies@[k].position;
                assert(abs_spec(p.x as int) <= abs_spec(p.x - cx) + abs_spec(cx));
                assert(abs_spec(p.y as int) <= abs_spec(p.y - cy) + abs_spec(cy));
            }
        }
    }
    update_entites(
        delta_time,
        &mut candidate.score,
        &known_enemy_locations,
        direction_ai,
        &mut candidate.cannon,
        &mut candidate.bullets,
        &mut candidate.enemies,
    );
    proof {
        let post = *candidate;
        let sensed = sensor_spec(st_b.cannon.direction as int, cx, cy, st_b.enemies@);
        assert(phase_time(pre, st_a, dt as int));
        assert(phase_destroy(st_a, st_b, *dimensions));
        assert(phase_create(st_b, st_c, sensed, *shooting_ai, *dimensions));
        assert(phase_update(st_c, post, sensed, *direction_ai, dt as int));
        assert(tick_rel(pre, post, *direction_ai, *shooting_ai, *dimensions, dt as int));
        lemma_tick_inv(pre, st_a, st_b, st_c, post, *direction_ai, *shooting_ai,
            *dimensions, dt as int);
    }
}

/// Re-establishing the candidate invariant across one tick's phases.
proof fn lemma_tick_inv(
    pre: Candidate,
    a: Candidate,
    b: Candidate,
    c: Candidate,
    post: Candidate,
    direction_ai: NeuralNetwork,
    shooting_ai: NeuralNetwork,
    dims: Point,
    dt: int,
)
    requires
        candidate_inv(pre, dims),
        pre.elapsed_time <= TRAINING_TIME,
        0 < dt <= DT_LIMIT,
        phase_time(pre, a, dt),
        phase_destroy(a, b, dims),
        phase_create(
            b,
            c,
            sensor_spec(
                b.cannon.direction as int,
                dims.x as int / 2,
                dims.y as int / 2,
                b.enemies@,
            ),
            shooting_ai,
            dims,
        ),
        phase_update(
            c,
            post,
            sensor_spec(
                b.cannon.direction as int,
                dims.x as int / 2,
                dims.y as int / 2,
                b.enemies@,
            ),
            direction_ai,
            dt,
        ),
        a.elapsed_time == pre.elapsed_time + dt,
        forall|k: int| 0 <= k < c.bullets@.len() ==> pos_within(
            (#[trigger] c.bullets@[k]).position,
            0,
            0,
            ent_bound(pre.elapsed_time as int),
        ) && speed_capped(c.bullets@[k].velocity) && point_ok(c.bullets@[k].position),
        forall|k: int| 0 <= k < c.enemies@.len() ==> pos_within(
            (#[trigger] c.enemies@[k]).position,
            0,
            0,
            ent_bound(pre.elapsed_time as int),
        ) && speed_capped(c.enemies@[k].velocity) && point_ok(c.enemies@[k].position),
        b.score as int <= a.score + KILL_REWARD * a.bullets@.len(),
        b.score >= a.score,
        b.bullets@.len() <= a.bullets@.len(),
        b.enemies@.len() <= a.enemies@.len(),
        c.score - 7_200 <= post.score <= c.score,
    ensures
        candidate_inv(post, dims),
        post.elapsed_time == pre.elapsed_time + dt,
{
    let cx = dims.x as int / 2;
    let cy = dims.y as int / 2;
    let e0 = pre.elapsed_time as int;
    let e1 = a.elapsed_time as int;
    assert(post.elapsed_time == e1);
    // clocks
    assert(0 <= post.time_since_enemy <= post.elapsed_time + INITIAL_TIME_SINCE_ENEMY);
    assert(0 <= post.time_since_bullet <= post.elapsed_time);
    // spawn budgets
    assert(post.bullets@.len() * BULLET_COOLDOWN + post.time_since_bullet <= e1
        + BULLET_COOLDOWN) by {
        if c.bullets@.len() == b.bullets@.len() + 1 {
            assert(b.bullets@.len() * BULLET_COOLDOWN <= a.bullets@.len()
                * BULLET_COOLDOWN) by (nonlinear_arith)
                requires
                    b.bullets@.len() <= a.bullets@.len(),
                    BULLET_COOLDOWN == 2_000,
            ;
        } else {
            assert(b.bullets@.len() * BULLET_COOLDOWN <= a.bullets@.len()
                * BULLET_COOLDOWN) by (nonlinear_arith)
                requires
                    b.bullets@.len() <= a.bullets@.len(),
                    BULLET_COOLDOWN == 2_000,
            ;
        }
    }
    assert(post.enemies@.len() * ENEMY_COOLDOWN + post.time_since_enemy <= e1
        + ENEMY_COOLDOWN) by {
        assert(b.enemies@.len() * ENEMY_COOLDOWN <= a.enemies@.len() * ENEMY_COOLDOWN)
            by (nonlinear_arith)
            requires
                b.enemies@.len() <= a.enemies@.len(),
                ENEMY_COOLDOWN == 4_000,
        ;
    }
    // entity bounds after movement
    assert forall|k: int| 0 <= k < post.bullets@.len() implies pos_within(
        (#[trigger] post.bullets@[k]).position,
        0,
        0,
        ent_bound(e1),
    ) && speed_capped(post.bullets@[k].velocity) && point_ok(post.bullets@[k].position) by {
        assert(ent_bound(e0) == ent_bound(e1) - 100_000 * dt);
        lemma_step_keeps_bound(
            c.bullets@[k].position,
            c.bullets@[k].velocity,
            post.bullets@[k].position,
            0,
            0,
            ent_bound(e1),
            dt,
        );
    }
    assert forall|k: int| 0 <= k < post.enemies@.len() implies pos_within(
        (#[trigger] post.enemies@[k]).position,
        0,
        0,
        ent_bound(e1),
    ) && speed_capped(post.enemies@[k].velocity) && point_ok(post.enemies@[k].position) by {
        assert(ent_bound(e0) == ent_bound(e1) - 100_000 * dt);
        lemma_step_keeps_bound(
            c.enemies@[k].position,
            c.enemies@[k].velocity,
            post.enemies@[k].position,
            0,
            0,
            ent_bound(e1),
            dt,
        );
    }
    // score envelope
    assert(abs_spec(post.score as int) <= e1 * e1 + 9_000 * e1) by {
        assert(a.bullets@.len() * BULLET_COOLDOWN <= e0 + BULLET_COOLDOWN);
        assert(abs_spec(post.score as int) <= abs_spec(pre.score as int) + KILL_REWARD
            * a.bullets@.len() + SHOT_COST + 7_200);
        assert(abs_spec(pre.score as int) + 1_000 * a.bullets@.len() + 100 + 7_200 <= e1
            * e1 + 9_000 * e1) by (nonlinear_arith)
            requires
                abs_spec(pre.score as int) <= e0 * e0 + 9_000 * e0,
                a.bullets@.len() * 2_000 <= e0 + 2_000,
                a.bullets@.len() >= 0,
                e1 == e0 + dt,
                0 <= e0,
                1 <= dt,
        ;
    }
}

/// One kinematic step keeps an entity within the bound grown by the
/// fastest speed times the step.
proof fn lemma_step_keeps_bound(
    pre: Point,
    vel: Point,
    post: Point,
    cx: int,
    cy: int,
    bound: int,
    dt: int,
)
    requires
        pos_within(pre, cx, cy, bound - 100_000 * dt),
        speed_capped(vel),
        stepped(pre, vel, post, dt),
        0 < dt <= DT_LIMIT,
        0 <= bound - 100_000 * dt,
        bound <= 16_000_000_000,
        -2_100_000 <= cx <= 2_100_000,
        -2_100_000 <= cy <= 2_100_000,
    ensures
        pos_within(post, cx, cy, bound),
        point_ok(post),
{
    crate::fixed::lemma_div_trunc_bounds(vel.x * dt, SCALE as int);
    crate::fixed::lemma_div_trunc_bounds(vel.y * dt, SCALE as int);
    assert(abs_spec(vel.x * dt) <= 100_000 * dt && abs_spec(vel.y * dt) <= 100_000 * dt)
        by (nonlinear_arith)
        requires
            -100_000 <= vel.x <= 100_000,
            -100_000 <= vel.y <= 100_000,
            0 < dt,
    ;
    let sx = crate::fixed::div_trunc(vel.x * dt, SCALE as int);
    let sy = crate::fixed::div_trunc(vel.y * dt, SCALE as int);
    assert(abs_spec(sx) * SCALE <= 100_000 * dt && abs_spec(sy) * SCALE <= 100_000 * dt);
    assert(abs_spec(post.x - cx) <= abs_spec(pre.x - cx) + abs_spec(sx));
    assert(abs_spec(post.x - cx) * SCALE <= abs_spec(pre.x - cx) * SCALE + abs_spec(sx)
        * SCALE) by (nonlinear_arith)
        requires
            abs_spec(post.x - cx) <= abs_spec(pre.x - cx) + abs_spec(sx),
            SCALE == 1000,
            abs_spec(post.x - cx) >= 0,
            abs_spec(pre.x - cx) >= 0,
            abs_spec(sx) >= 0,
    ;
    assert(abs_spec(post.y - cy) <= abs_spec(pre.y - cy) + abs_spec(sy));
    assert(abs_spec(post.y - cy) * SCALE <= abs_spec(pre.y - cy) * SCALE + abs_spec(sy)
        * SCALE) by (nonlinear_arith)
        requires
            abs_spec(post.y - cy) <= abs_spec(pre.y - cy) + abs_spec(sy),
            SCALE == 1000,
            abs_spec(post.y - cy) >= 0,
            abs_spec(pre.y - cy) >= 0,
            abs_spec(sy) >= 0,
    ;
    assert(abs_spec(post.x - cx) * 1000 <= 16_000_000_000 ==> abs_spec(post.x - cx)
        <= 16_000_000);
    assert(abs_spec(post.y - cy) * 1000 <= 16_000_000_000 ==> abs_spec(post.y - cy)
        <= 16_000_000);
}

/// The whole population: one candidate world and one pair of networks
/// per member, sharing one viewport.
pub struct Population {
    pub candidates: Vec<Candidate>,
    pub direction_ais: Vec<NeuralNetwork>,
    pub shooting_ais: Vec<NeuralNetwork>,
    pub dimensions: Point,
}

/// The population invariant: equal table lengths, a valid viewport, and
/// every candidate and network well formed.
pub open spec fn population_inv(p: Population) -> bool {
    &&& dims_ok(p.dimensions)
    &&& p.candidates@.len() == p.direction_ais@.len()
    &&& p.candidates@.len() == p.shooting_ais@.len()
    &&& forall|k: int| 0 <= k < p.candidates@.len() ==> candidate_inv(
        #[trigger] p.candidates@[k],
        p.dimensions,
    )
    &&& forall|k: int| 0 <= k < p.direction_ais@.len() ==> steering_net_ok(
        #[trigger] p.direction_ais@[k],
    )
    &&& forall|k: int| 0 <= k < p.shooting_ais@.len() ==> fire_net_ok(
        #[trigger] p.shooting_ais@[k],
    )
}

/// The population size derived from the hardware parallelism: one unit is
/// held back when more than one is available, and the result is
/// normalized to be even and at least ten.
pub open spec fn normalized_population(p: int) -> int {
    let base = if p > 1 {
        p - 1
    } else {
        p
    };
    let even = if base % 2 == 0 {
        base
    } else if base < 10 {
        10
    } else {
        base - 1
    };
    if even < 10 {
        10
    } else {
        even
    }
}

/// Normalize a hardware parallelism figure into a population size.
pub fn normalize_total_ais(parallelism: usize) -> (r: usize)
    requires
        parallelism <= 1_000_000,
    ensures
        r as int == normalized_population(parallelism as int),
        r % 2 == 0,
        r >= 10,
        r <= 1_000_000,
{
    let base: usize = if parallelism > 1 {
        parallelism - 1
    } else {
        parallelism
    };
    let even: usize = if base % 2 == 0 {
        base
    } else if base < 10 {
        10
    } else {
        base - 1
    };
    if even < 10 {
        10
    } else {
        even
    }
}

/// A fresh population of the given size: fresh candidates and random
/// steering and fire networks over the fixed layer sizes, on the default
/// viewport.
pub fn new_population(total_ais: usize) -> (p: Population)
    requires
        1 <= total_ais <= 1_000_000,
    ensures
        population_inv(p),
        p.candidates@.len() == total_ais,
        p.dimensions.x == 800_000 && p.dimensions.y == 600_000,
        forall|k: int| 0 <= k < total_ais ==> fresh_candidate(#[trigger] p.candidates@[k])
            && p.candidates@[k].cannon.position.x == 400_000
            && p.candidates@[k].cannon.position.y == 300_000,
        forall|k: int| 0 <= k < total_ais ==> steering_layer_shape(
            #[trigger] p.direction_ais@[k],
        ) && crate::neural_network::freshly_random(p.direction_ais@[k]),
        forall|k: int| 0 <= k < total_ais ==> fire_layer_shape(
            #[trigger] p.shooting_ais@[k],
        ) && crate::neural_network::freshly_random(p.shooting_ais@[k]),
{
    let steering_sizes: Vec<usize> = vec![TOTAL_VIEW_RAYS, TOTAL_VIEW_RAYS / 2, 3];
    let fire_sizes: Vec<usize> = vec![TOTAL_VIEW_RAYS, TOTAL_VIEW_RAYS / 2, 2];
    let mut candidates: Vec<Candidate> = Vec::new();
    let mut direction_ais: Vec<NeuralNetwork> = Vec::new();
    let mut shooting_ais: Vec<NeuralNetwork> = Vec::new();
    let mut i: usize = 0;
    while i < total_ais
        invariant
            0 <= i <= total_ais,
            steering_sizes@ =~= seq![TOTAL_VIEW_RAYS, TOTAL_VIEW_RAYS / 2, 3usize],
            fire_sizes@ =~= seq![TOTAL_VIEW_RAYS, TOTAL_VIEW_RAYS / 2, 2usize],
            candidates@.len() == i,
            direction_ais@.len() == i,
            shooting_ais@.len() == i,
            forall|k: int| 0 <= k < i ==> fresh_candidate(#[trigger] candidates@[k])
                && candidates@[k].cannon.position.x == 400_000
                && candidates@[k].cannon.position.y == 300_000,
            forall|k: int| 0 <= k < i ==> forall|dims: Point|
                dims_ok(dims) ==> candidate_inv(#[trigger] candidates@[k], dims),
            forall|k: int| 0 <= k < i ==> steering_net_ok(#[trigger] direction_ais@[k]),
            forall|k: int| 0 <= k < i ==> fire_net_ok(#[trigger] shooting_ais@[k]),
            forall|k: int| 0 <= k < i ==> steering_layer_shape(
                #[trigger] direction_ais@[k],
            ) && crate::neural_network::freshly_random(direction_ais@[k]),
            forall|k: int| 0 <= k < i ==> fire_layer_shape(#[trigger] shooting_ais@[k])
                && crate::neural_network::freshly_random(shooting_ais@[k]),
        decreases total_ais - i,
    {
        candidates.push(new_candidate());
        direction_ais.push(NeuralNetwork::new_random_unchecked(&steering_sizes));
        shooting_ais.push(NeuralNetwork::new_random_unchecked(&fire_sizes));
        i = i + 1;
    }
    Population {
        candidates,
        direction_ais,
        shooting_ais,
        dimensions: Point { x: 800_000, y: 600_000 },
    }
}

/// A candidate in the state every generation starts from.
pub open spec fn fresh_candidate(c: Candidate) -> bool {
    &&& c.cannon.direction == 0
    &&& c.bullets@.len() == 0
    &&& c.enemies@.len() == 0
    &&& c.score == 0
    &&& c.elapsed_time == 0
    &&& c.time_since_enemy == INITIAL_TIME_SINCE_ENEMY
    &&& c.time_since_bullet == 0
}

/// Assemble a population around previously trained networks, after
/// checking that they fit the scheduler's shapes.  Returns nothing when
/// the tables disagree in length or any network has the wrong shape.
pub fn population_from_networks(
    direction_ais: Vec<NeuralNetwork>,
    shooting_ais: Vec<NeuralNetwork>,
) -> (r: Option<Population>)
    ensures
        r is Some <==> ({
            &&& direction_ais@.len() == shooting_ais@.len()
            &&& 0 < direction_ais@.len() <= 1_000_000
            &&& forall|k: int| 0 <= k < direction_ais@.len() ==> steering_net_ok(
                #[trigger] direction_ais@[k],
            )
            &&& forall|k: int| 0 <= k < shooting_ais@.len() ==> fire_net_ok(
                #[trigger] shooting_ais@[k],
            )
        }),
        r is Some ==> population_inv(r->0),
        r is Some ==> r->0.candidates@.len() == direction_ais@.len(),
        r is Some ==> r->0.direction_ais@ == direction_ais@ && r->0.shooting_ais@
            == shooting_ais@,
{
    if direction_ais.len() != shooting_ais.len() || direction_ais.len() == 0
        || direction_ais.len() > 1_000_000 {
        return None;
    }
    let total = direction_ais.len();
    let mut i: usize = 0;
    while i < total
        invariant
            0 <= i <= total == direction_ais@.len() == shooting_ais@.len(),
            0 < total <= 1_000_000,
            forall|k: int| 0 <= k < i ==> steering_net_ok(#[trigger] direction_ais@[k]),
            forall|k: int| 0 <= k < i ==> fire_net_ok(#[trigger] shooting_ais@[k]),
        decreases total - i,
    {
        let d = &direction_ais[i];
        if !d.validate() || d.input_size != TOTAL_VIEW_RAYS || d.output_size != 3
            || d.weights.len() == 0 {
            proof {
                assert(!steering_net_ok(direction_ais@[i as int]));
            }
            return None;
        }
        let s = &shooting_ais[i];
        if !s.validate() || s.input_size != TOTAL_VIEW_RAYS || s.output_size != 2
            || s.weights.len() == 0 {
            proof {
                assert(!fire_net_ok(shooting_ais@[i as int]));
            }
            return None;
        }
        proof {
            crate::neural_network::lemma_tensor_deep_view(&direction_ais@[i as int].weights);
            crate::neural_network::lemma_tensor_deep_view(&shooting_ais@[i as int].weights);
        }
        i = i + 1;
    }
    let mut candidates: Vec<Candidate> = Vec::new();
    let mut i: usize = 0;
    while i < total
        invariant
            0 <= i <= total,
            candidates@.len() == i,
            forall|k: int| 0 <= k < i ==> forall|dims: Point|
                dims_ok(dims) ==> candidate_inv(#[trigger] candidates@[k], dims),
        decreases total - i,
    {
        candidates.push(new_candidate());
        i = i + 1;
    }
    let p = Population {
        candidates,
        direction_ais,
        shooting_ais,
        dimensions: Point { x: 800_000, y: 600_000 },
    };
    proof {
        assert(dims_ok(p.dimensions));
        assert forall|k: int| 0 <= k < p.candidates@.len() implies candidate_inv(
            #[trigger] p.candidates@[k],
            p.dimensions,
        ) by {}
    }
    Some(p)
}

/// Record a viewport resize: store the new dimensions and re-centre every
/// turret, leaving everything else alone.
pub fn update_dimensions(population: &mut Population, width: i64, height: i64)
    requires
        population_inv(*old(population)),
        2 <= width <= 4_000_000,
        2 <= height <= 4_000_000,
    ensures
        population_inv(*final(population)),
        final(population).dimensions.x == width,
        final(population).dimensions.y == height,
        final(population).candidates@.len() == old(population).candidates@.len(),
        forall|k: int| 0 <= k < old(population).candidates@.len() ==> {
            let pre = old(population).candidates@[k];
            let post = #[trigger] final(population).candidates@[k];
            &&& post.cannon.position.x == width / 2
            &&& post.cannon.position.y == height / 2
            &&& post.cannon.direction == pre.cannon.direction
            &&& post.bullets@ == pre.bullets@
            &&& post.enemies@ == pre.enemies@
            &&& post.score == pre.score
            &&& post.elapsed_time == pre.elapsed_time
            &&& post.time_since_enemy == pre.time_since_enemy
            &&& post.time_since_bullet == pre.time_since_bullet
        },
        final(population).direction_ais@ == old(population).direction_ais@,
        final(population).shooting_ais@ == old(population).shooting_ais@,
{
    population.dimensions = Point { x: width, y: height };
    let ghost orig = old(population).candidates@;
    let mut i: usize = 0;
    while i < population.candidates.len()
        invariant
            0 <= i <= orig.len(),
            population.candidates@.len() == orig.len(),
            2 <= width <= 4_000_000,
            2 <= height <= 4_000_000,
            population.dimensions.x == width && population.dimensions.y == height,
            forall|k: int| i <= k < orig.len() ==> #[trigger] population.candidates@[k]
                == orig[k],
            forall|k: int| 0 <= k < orig.len() ==> candidate_inv(orig[k], old(
                population,
            ).dimensions),
            forall|k: int| 0 <= k < i ==> {
                let pre = orig[k];
                let post = #[trigger] population.candidates@[k];
                &&& post.cannon.position.x == width / 2
                &&& post.cannon.position.y == height / 2
                &&& post.cannon.direction == pre.cannon.direction
                &&& post.bullets@ == pre.bullets@
                &&& post.enemies@ == pre.enemies@
                &&& post.score == pre.score
                &&& post.elapsed_time == pre.elapsed_time
                &&& post.time_since_enemy == pre.time_since_enemy
                &&& post.time_since_bullet == pre.time_since_bullet
            },
            forall|k: int| 0 <= k < i ==> candidate_inv(
                #[trigger] population.candidates@[k],
                population.dimensions,
            ),
            population.direction_ais@ == old(population).direction_ais@,
            population.shooting_ais@ == old(population).shooting_ais@,
            forall|k: int| 0 <= k < population.direction_ais@.len() ==> steering_net_ok(
                #[trigger] population.direction_ais@[k],
            ),
            forall|k: int| 0 <= k < population.shooting_ais@.len() ==> fire_net_ok(
                #[trigger] population.shooting_ais@[k],
            ),
            population.direction_ais@.len() == orig.len(),
            population.shooting_ais@.len() == orig.len(),
        decreases orig.len() - i,
    {
        let cannon_position = Point { x: width / 2, y: height / 2 };
        let candidate = &mut population.candidates[i];
        candidate.cannon.position = cannon_position;
        i = i + 1;
    }
}

/// A complete training window as a trace of candidate states: every step
/// but the last is one `tick_rel` transition taken while the clock was
/// within the window, and the last state has exhausted the window.
pub open spec fn window_run(
    trace: Seq<Candidate>,
    direction_ai: NeuralNetwork,
    shooting_ai: NeuralNetwork,
    dims: Point,
    dt: int,
    training_time: int,
) -> bool {
    &&& trace.len() >= 1
    &&& forall|i: int| 0 <= i < trace.len() - 1 ==> (#[trigger] trace[i]).elapsed_time
        <= training_time
    &&& forall|i: int| 0 <= i < trace.len() - 1 ==> #[trigger] tick_rel(
        trace[i],
        trace[i + 1],
        direction_ai,
        shooting_ai,
        dims,
        dt,
    )
    &&& trace.last().elapsed_time > training_time
}

/// `post` is reached from `pre` by running out a whole training window:
/// some tick trace connects them.
pub open spec fn window_ran(
    pre: Candidate,
    post: Candidate,
    direction_ai: NeuralNetwork,
    shooting_ai: NeuralNetwork,
    dims: Point,
    dt: int,
    training_time: int,
) -> bool {
    exists|trace: Seq<Candidate>|
        trace.first() == pre && trace.last() == post && #[trigger] window_run(
            trace,
            direction_ai,
            shooting_ai,
            dims,
            dt,
            training_time,
        )
}

/// Run one candidate's whole training window at a fixed synthetic step:
/// tick until the elapsed simulation time exceeds the window.
pub fn run_candidate_window(
    population: &mut Population,
    ai_index: usize,
    delta_time: i64,
    training_time: i64,
)
    requires
        population_inv(*old(population)),
        ai_index < old(population).candidates@.len(),
        0 < delta_time <= DT_LIMIT,
        0 < training_time <= TRAINING_TIME,
    ensures
        population_inv(*final(population)),
        final(population).candidates@.len() == old(population).candidates@.len(),
        forall|k: int|
            0 <= k < old(population).candidates@.len() && k != ai_index
                ==> #[trigger] final(population).candidates@[k] == old(
                population,
            ).candidates@[k],
        final(population).candidates@[ai_index as int].elapsed_time > training_time,
        final(population).direction_ais@ == old(population).direction_ais@,
        final(population).shooting_ais@ == old(population).shooting_ais@,
        final(population).dimensions == old(population).dimensions,
        window_ran(
            old(population).candidates@[ai_index as int],
            final(population).candidates@[ai_index as int],
            old(population).direction_ais@[ai_index as int],
            old(population).shooting_ais@[ai_index as int],
            old(population).dimensions,
            delta_time as int,
            training_time as int,
        ),
{
    let ghost orig = *old(population);
    let ghost mut trace: Seq<Candidate> = seq![orig.candidates@[ai_index as int]];
    loop
        invariant
            population_inv(*population),
            ai_index < population.candidates@.len(),
            population.candidates@.len() == orig.candidates@.len(),
            0 < delta_time <= DT_LIMIT,
            0 < training_time <= TRAINING_TIME,
            forall|k: int|
                0 <= k < orig.candidates@.len() && k != ai_index
                    ==> #[trigger] population.candidates@[k] == orig.candidates@[k],
            population.direction_ais@ == orig.direction_ais@,
            population.shooting_ais@ == orig.shooting_ais@,
            population.dimensions == orig.dimensions,
            trace.len() >= 1,
            trace.first() == orig.candidates@[ai_index as int],
            trace.last() == population.candidates@[ai_index as int],
            forall|i: int| 0 <= i < trace.len() - 1 ==> (#[trigger] trace[i]).elapsed_time
                <= training_time,
            forall|i: int| 0 <= i < trace.len() - 1 ==> #[trigger] tick_rel(
                trace[i],
                trace[i + 1],
                orig.direction_ais@[ai_index as int],
                orig.shooting_ais@[ai_index as int],
                orig.dimensions,
                delta_time as int,
            ),
        ensures
            population.candidates@[ai_index as int].elapsed_time > training_time,
            trace.first() == orig.candidates@[ai_index as int],
            trace.last() == population.candidates@[ai_index as int],
            window_run(
                trace,
                orig.direction_ais@[ai_index as int],
                orig.shooting_ais@[ai_index as int],
                orig.dimensions,
                delta_time as int,
                training_time as int,
            ),
        decreases TRAINING_TIME + DT_LIMIT + 1 - population.candidates@[ai_index as int].elapsed_time,
    {
        if population.candidates[ai_index].elapsed_time > training_time {
            break;
        }
        let dims = population.dimensions;
        let direction_ai = &population.direction_ais[ai_index];
        let shooting_ai = &population.shooting_ais[ai_index];
        let candidate = &mut population.candidates[ai_index];
        let ghost pre_tick = *candidate;
        tick(candidate, direction_ai, shooting_ai, &dims, delta_time);
        proof {
            let ghost old_trace = trace;
            trace = trace.push(population.candidates@[ai_index as int]);
            assert(trace.last() == population.candidates@[ai_index as int]);
            assert(trace.first() == old_trace.first());
            assert forall|i: int| 0 <= i < trace.len() - 1 implies (#[trigger] trace[i])
                .elapsed_time <= training_time && tick_rel(
                trace[i],
                trace[i + 1],
                orig.direction_ais@[ai_index as int],
                orig.shooting_ais@[ai_index as int],
                orig.dimensions,
                delta_time as int,
            ) by {
                if i < old_trace.len() - 1 {
                    assert(trace[i] == old_trace[i]);
                    assert(trace[i + 1] == old_trace[i + 1]);
                } else {
                    assert(trace[i] == pre_tick);
                    assert(trace[i + 1] == population.candidates@[ai_index as int]);
                }
            }
        }
    }
    proof {
        assert(window_ran(
            orig.candidates@[ai_index as int],
            population.candidates@[ai_index as int],
            orig.direction_ais@[ai_index as int],
            orig.shooting_ais@[ai_index as int],
            orig.dimensions,
            delta_time as int,
            training_time as int,
        )) by {
            assert(trace.first() == orig.candidates@[ai_index as int] && trace.last()
                == population.candidates@[ai_index as int] && window_run(
                trace,
                orig.direction_ais@[ai_index as int],
                orig.shooting_ais@[ai_index as int],
                orig.dimensions,
                delta_time as int,
                training_time as int,
            ));
        }
    }
}

/// The final scores of all candidates, in slot order.
pub fn collect_scores(population: &Population) -> (r: Vec<i64>)
    ensures
        r@.len() == population.candidates@.len(),
        forall|k: int| 0 <= k < r@.len() ==> #[trigger] r@[k]
            == population.candidates@[k].score,
{
    let mut r: Vec<i64> = Vec::new();
    let mut i: usize = 0;
    while i < population.candidates.len()
        invariant
            0 <= i <= population.candidates@.len(),
            r@.len() == i,
            forall|k: int| 0 <= k < i ==> #[trigger] r@[k]
                == population.candidates@[k].score,
        decreases population.candidates@.len() - i,
    {
        r.push(population.candidates[i].score);
        i = i + 1;
    }
    r
}

/// A child network obtained by cloning `donor` and applying one bounded
/// mutation: the pre-mutation clone is bit-for-bit the donor.
pub open spec fn reseeded_from(child: NeuralNetwork, donor: NeuralNetwork, change: int) -> bool {
    &&& child.input_size == donor.input_size
    &&& child.output_size == donor.output_size
    &&& tweaked_tensor(donor.weights.deep_view(), child.weights.deep_view(), change, 1)
    &&& tweaked_mat(donor.biases.deep_view(), child.biases.deep_view(), change, 1)
}

/// The ranking result: `sel` holds the `n` rank-lowest indices of
/// `scores` in rank order, ties toward the lower index.
pub open spec fn is_rank_selection(scores: Seq<i64>, sel: Seq<usize>, n: int) -> bool {
    &&& sel.len() == if n <= scores.len() {
        n
    } else {
        scores.len() as int
    }
    &&& forall|k: int| 0 <= k < sel.len() ==> (#[trigger] sel[k] as int) < scores.len()
    &&& forall|k1: int, k2: int| 0 <= k1 < k2 < sel.len() ==> lex_lt(
        scores,
        #[trigger] sel[k1] as int,
        #[trigger] sel[k2] as int,
    )
    &&& forall|k: int, j: usize| #![trigger sel[k], sel.contains(j)]
        0 <= k < sel.len() && (j as int) < scores.len() && !sel.contains(j) ==> lex_lt(
            scores,
            sel[k] as int,
            j as int,
        )
}

/// The donors: the complement of `worst`, in rank order — descending
/// score, ties toward the lower index — so the worst candidate is paired
/// with the best donor, the next worst with the next best, and so on.
pub open spec fn is_ranked_donors(scores: Seq<i64>, worst: Seq<usize>, best: Seq<usize>) -> bool {
    &&& best.len() == scores.len() - worst.len()
    &&& forall|k: int| 0 <= k < best.len() ==> (#[trigger] best[k] as int) < scores.len()
    &&& forall|k1: int, k2: int| 0 <= k1 < k2 < best.len() ==> donor_before(
        scores,
        #[trigger] best[k1] as int,
        #[trigger] best[k2] as int,
    )
    &&& forall|j: usize| (j as int) < scores.len() ==> (#[trigger] best.contains(j)
        <==> !worst.contains(j))
}

/// The reseeding of the network tables: every worst slot becomes a
/// mutated clone of its paired donor, and every other slot is untouched.
pub open spec fn nets_reseeded(
    old_d: Seq<NeuralNetwork>,
    old_s: Seq<NeuralNetwork>,
    new_d: Seq<NeuralNetwork>,
    new_s: Seq<NeuralNetwork>,
    worst: Seq<usize>,
    best: Seq<usize>,
    change: int,
) -> bool {
    &&& new_d.len() == old_d.len()
    &&& new_s.len() == old_s.len()
    &&& forall|k: int|
        0 <= k < worst.len() ==> reseeded_from(
            new_d[#[trigger] worst[k] as int],
            old_d[best[k] as int],
            change,
        ) && reseeded_from(new_s[worst[k] as int], old_s[best[k] as int], change)
    &&& forall|j: int|
        0 <= j < old_d.len() && !worst.contains(j as usize)
            ==> #[trigger] new_d[j] == old_d[j] && new_s[j] == old_s[j]
}

/// The scores of a candidate table, in slot order.
pub open spec fn scores_of(cands: Seq<Candidate>) -> Seq<i64> {
    Seq::new(cands.len(), |k: int| cands[k].score)
}

/// Rank the finished generation and reseed: the lower-scoring half's
/// networks are overwritten with mutated clones of their paired donors,
/// and every candidate's world is reset for the next generation.
pub fn reseed_population(population: &mut Population)
    requires
        population_inv(*old(population)),
    ensures
        population_inv(*final(population)),
        final(population).candidates@.len() == old(population).candidates@.len(),
        final(population).dimensions == old(population).dimensions,
        forall|k: int| 0 <= k < final(population).candidates@.len() ==> fresh_candidate(
            #[trigger] final(population).candidates@[k],
        ) && final(population).candidates@[k].cannon.position == old(
            population,
        ).candidates@[k].cannon.position,
        exists|worst: Seq<usize>, best: Seq<usize>|
            #![trigger is_rank_selection(scores_of(old(population).candidates@), worst, old(population).candidates@.len() as int / 2), is_ranked_donors(scores_of(old(population).candidates@), worst, best)]
            {
                &&& is_rank_selection(
                    scores_of(old(population).candidates@),
                    worst,
                    old(population).candidates@.len() as int / 2,
                )
                &&& is_ranked_donors(
                    scores_of(old(population).candidates@),
                    worst,
                    best,
                )
                &&& nets_reseeded(
                    old(population).direction_ais@,
                    old(population).shooting_ais@,
                    final(population).direction_ais@,
                    final(population).shooting_ais@,
                    worst,
                    best,
                    MAX_TWEAK_CHANGE as int,
                )
            },
{
    let ghost orig = *old(population);
    let scores = collect_scores(population);
    proof {
        assert(scores@ =~= scores_of(orig.candidates@));
    }
    let total = population.candidates.len();
    let worst = find_n_lowest_indices(&scores, total / 2);
    proof {
        assert(distinct_indices(worst@)) by {
            assert forall|k1: int, k2: int| 0 <= k1 < k2 < worst@.len()
                implies #[trigger] worst@[k1] != #[trigger] worst@[k2] by {
                assert(lex_lt(scores@, worst@[k1] as int, worst@[k2] as int));
            }
        }
    }
    let best = rank_donors(&scores, &worst);
    let ghost old_d = population.direction_ais@;
    let ghost old_s = population.shooting_ais@;
    let mut k: usize = 0;
    while k < worst.len()
        invariant
            0 <= k <= worst@.len(),
            worst@.len() <= best@.len(),
            distinct_indices(worst@),
            forall|q: int| 0 <= q < worst@.len() ==> (#[trigger] worst@[q])
                < population.direction_ais@.len(),
            forall|q: int| 0 <= q < best@.len() ==> (#[trigger] best@[q])
                < population.direction_ais@.len(),
            forall|j: usize| (j as int) < old_d.len() ==> (#[trigger] best@.contains(j)
                <==> !worst@.contains(j)),
            population.direction_ais@.len() == old_d.len(),
            population.shooting_ais@.len() == old_s.len(),
            old_d.len() == old_s.len(),
            forall|j: int|
                0 <= j < old_d.len() && !worst@.subrange(0, k as int).contains(j as usize)
                    ==> #[trigger] population.direction_ais@[j] == old_d[j]
                    && population.shooting_ais@[j] == old_s[j],
            forall|q: int|
                0 <= q < k ==> reseeded_from(
                    population.direction_ais@[#[trigger] worst@[q] as int],
                    old_d[best@[q] as int],
                    MAX_TWEAK_CHANGE as int,
                ) && reseeded_from(
                    population.shooting_ais@[worst@[q] as int],
                    old_s[best@[q] as int],
                    MAX_TWEAK_CHANGE as int,
                ),
            forall|q: int| 0 <= q < population.direction_ais@.len() ==> steering_net_ok(
                #[trigger] population.direction_ais@[q],
            ),
            forall|q: int| 0 <= q < population.shooting_ais@.len() ==> fire_net_ok(
                #[trigger] population.shooting_ais@[q],
            ),
            forall|q: int| 0 <= q < old_d.len() ==> steering_net_ok(#[trigger] old_d[q])
                && fire_net_ok(#[trigger] old_s[q]),
            population.candidates@ == orig.candidates@,
            population.dimensions == orig.dimensions,
            population_inv(*population),
        decreases worst@.len() - k,
    {
        let bad_index = worst[k];
        let good_index = best[k];
        proof {
            assert(best@.contains(best@[k as int]));
            assert(!worst@.contains(best@[k as int]));
            assert(!worst@.subrange(0, k as int).contains(good_index)) by {
                if worst@.subrange(0, k as int).contains(good_index) {
                    let q = choose|q: int|
                        0 <= q < k && worst@.subrange(0, k as int)[q] == good_index;
                    assert(worst@[q] == good_index);
                    assert(worst@.contains(good_index));
                }
            }
            assert(population.direction_ais@[good_index as int] == old_d[
                good_index as int
            ]);
        }
        let mut new_direction = population.direction_ais[good_index].duplicate();
        new_direction.tweak_continuous(MAX_TWEAK_CHANGE);
        let mut new_shooting = population.shooting_ais[good_index].duplicate();
        new_shooting.tweak_continuous(MAX_TWEAK_CHANGE);
        let ghost pre_d = population.direction_ais@;
        let ghost pre_s = population.shooting_ais@;
        population.direction_ais.set(bad_index, new_direction);
        population.shooting_ais.set(bad_index, new_shooting);
        proof {
            assert forall|j: int|
                0 <= j < old_d.len() && !worst@.subrange(0, k + 1 as int).contains(
                    j as usize,
                ) implies #[trigger] population.direction_ais@[j] == old_d[j]
                && population.shooting_ais@[j] == old_s[j] by {
                assert(!worst@.subrange(0, k as int).contains(j as usize)) by {
                    if worst@.subrange(0, k as int).contains(j as usize) {
                        let q = choose|q: int|
                            0 <= q < k && worst@.subrange(0, k as int)[q] == j as usize;
                        assert(worst@.subrange(0, k + 1 as int)[q] == j as usize);
                    }
                }
                assert(j != bad_index as int) by {
                    if j == bad_index as int {
                        assert(worst@.subrange(0, k + 1 as int)[k as int] == worst@[
                            k as int
                        ]);
                    }
                }
                assert(population.direction_ais@[j] == pre_d[j]);
                assert(population.shooting_ais@[j] == pre_s[j]);
            }
            assert forall|q: int|
                0 <= q < k + 1 implies reseeded_from(
                    population.direction_ais@[#[trigger] worst@[q] as int],
                    old_d[best@[q] as int],
                    MAX_TWEAK_CHANGE as int,
                ) && reseeded_from(
                    population.shooting_ais@[worst@[q] as int],
                    old_s[best@[q] as int],
                    MAX_TWEAK_CHANGE as int,
                ) by {
                if q < k {
                    assert(worst@[q] != worst@[k as int]);
                    assert(population.direction_ais@[worst@[q] as int] == pre_d[worst@[
                        q
                    ] as int]);
                    assert(population.shooting_ais@[worst@[q] as int] == pre_s[worst@[
                        q
                    ] as int]);
                }
            }
        }
        k = k + 1;
    }
    proof {
        assert(worst@.subrange(0, worst@.len() as int) =~= worst@);
    }
    let ghost reseeded_d = population.direction_ais@;
    let ghost reseeded_s = population.shooting_ais@;
    proof {
        assert(is_rank_selection(
            scores_of(orig.candidates@),
            worst@,
            orig.candidates@.len() as int / 2,
        ));
        assert(is_ranked_donors(scores_of(orig.candidates@), worst@, best@));
        assert(nets_reseeded(
            old_d,
            old_s,
            reseeded_d,
            reseeded_s,
            worst@,
            best@,
            MAX_TWEAK_CHANGE as int,
        ));
    }
    let mut i: usize = 0;
    while i < population.candidates.len()
        invariant
            0 <= i <= population.candidates@.len(),
            population.candidates@.len() == orig.candidates@.len(),
            dims_ok(population.dimensions),
            forall|k2: int| i <= k2 < orig.candidates@.len()
                ==> #[trigger] population.candidates@[k2] == orig.candidates@[k2],
            forall|k2: int| 0 <= k2 < i ==> fresh_candidate(
                #[trigger] population.candidates@[k2],
            ) && population.candidates@[k2].cannon.position
                == orig.candidates@[k2].cannon.position && candidate_inv(
                population.candidates@[k2],
                population.dimensions,
            ),
            forall|k2: int| 0 <= k2 < orig.candidates@.len() ==> candidate_inv(
                #[trigger] orig.candidates@[k2],
                population.dimensions,
            ),
            population.direction_ais@.len() == orig.candidates@.len(),
            population.shooting_ais@.len() == orig.candidates@.len(),
            forall|q: int| 0 <= q < population.direction_ais@.len() ==> steering_net_ok(
                #[trigger] population.direction_ais@[q],
            ),
            forall|q: int| 0 <= q < population.shooting_ais@.len() ==> fire_net_ok(
                #[trigger] population.shooting_ais@[q],
            ),
            population.dimensions == orig.dimensions,
            population.direction_ais@ == reseeded_d,
            population.shooting_ais@ == reseeded_s,
        decreases population.candidates@.len() - i,
    {
        let candidate = &mut population.candidates[i];
        candidate.cannon.direction = 0;
        candidate.bullets = Vec::new();
        candidate.enemies = Vec::new();
        candidate.score = 0;
        candidate.elapsed_time = 0;
        candidate.time_since_enemy = INITIAL_TIME_SINCE_ENEMY;
        candidate.time_since_bullet = 0;
        proof {
            let c = population.candidates@[i as int];
            assert(c.bullets@.len() * BULLET_COOLDOWN == 0) by (nonlinear_arith)
                requires
                    c.bullets@.len() == 0,
            ;
            assert(c.enemies@.len() * ENEMY_COOLDOWN == 0) by (nonlinear_arith)
                requires
                    c.enemies@.len() == 0,
            ;
        }
        i = i + 1;
    }
}

/// One full generation driven sequentially at a fixed synthetic step:
/// every candidate runs its whole training window to completion, then
/// the population is ranked and reseeded.  Termination of this function
/// is the scheduler's progress guarantee: every generation ends.
pub fn advance_generation(population: &mut Population, delta_time: i64, training_time: i64)
    requires
        population_inv(*old(population)),
        0 < delta_time <= DT_LIMIT,
        0 < training_time <= TRAINING_TIME,
    ensures
        population_inv(*final(population)),
        final(population).candidates@.len() == old(population).candidates@.len(),
        final(population).dimensions == old(population).dimensions,
        forall|k: int| 0 <= k < final(population).candidates@.len() ==> fresh_candidate(
            #[trigger] final(population).candidates@[k],
        ),
        exists|mid: Seq<Candidate>, worst: Seq<usize>, best: Seq<usize>|
            #![trigger is_rank_selection(scores_of(mid), worst, old(population).candidates@.len() as int / 2), is_ranked_donors(scores_of(mid), worst, best)]
            {
                &&& mid.len() == old(population).candidates@.len()
                &&& forall|k: int|
                    0 <= k < mid.len() ==> window_ran(
                        old(population).candidates@[k],
                        #[trigger] mid[k],
                        old(population).direction_ais@[k],
                        old(population).shooting_ais@[k],
                        old(population).dimensions,
                        delta_time as int,
                        training_time as int,
                    )
                &&& is_rank_selection(
                    scores_of(mid),
                    worst,
                    old(population).candidates@.len() as int / 2,
                )
                &&& is_ranked_donors(scores_of(mid), worst, best)
                &&& nets_reseeded(
                    old(population).direction_ais@,
                    old(population).shooting_ais@,
                    final(population).direction_ais@,
                    final(population).shooting_ais@,
                    worst,
                    best,
                    MAX_TWEAK_CHANGE as int,
                )
            },
{
    let mut i: usize = 0;
    let total = population.candidates.len();
    while i < total
        invariant
            0 <= i <= total,
            population_inv(*population),
            population.candidates@.len() == total == old(population).candidates@.len(),
            population.dimensions == old(population).dimensions,
            population.direction_ais@ == old(population).direction_ais@,
            population.shooting_ais@ == old(population).shooting_ais@,
            0 < delta_time <= DT_LIMIT,
            0 < training_time <= TRAINING_TIME,
            forall|k: int|
                0 <= k < i ==> window_ran(
                    old(population).candidates@[k],
                    #[trigger] population.candidates@[k],
                    old(population).direction_ais@[k],
                    old(population).shooting_ais@[k],
                    old(population).dimensions,
                    delta_time as int,
                    training_time as int,
                ),
            forall|k: int| i <= k < total ==> #[trigger] population.candidates@[k] == old(
                population,
            ).candidates@[k],
        decreases total - i,
    {
        run_candidate_window(population, i, delta_time, training_time);
        i = i + 1;
    }
    let ghost mid = population.candidates@;
    let ghost mid_d = population.direction_ais@;
    let ghost mid_s = population.shooting_ais@;
    reseed_population(population);
    proof {
        let half = mid.len() as int / 2;
        let (w, b): (Seq<usize>, Seq<usize>) = choose|w: Seq<usize>, b: Seq<usize>|
            {
                &&& #[trigger] is_rank_selection(scores_of(mid), w, half)
                &&& #[trigger] is_ranked_donors(scores_of(mid), w, b)
                &&& nets_reseeded(
                    mid_d,
                    mid_s,
                    population.direction_ais@,
                    population.shooting_ais@,
                    w,
                    b,
                    MAX_TWEAK_CHANGE as int,
                )
            };
        assert(is_rank_selection(scores_of(mid), w, half) && is_ranked_donors(
            scores_of(mid),
            w,
            b,
        ));
    }
}

} // verus!
