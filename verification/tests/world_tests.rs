//! Geometry, sensing and the destroy phase.

use cannon_ai::entity::{Point, Bullet, Enemy};
use cannon_ai::sensor::get_known_enemy_locations;
use cannon_ai::simulation::{destroy_entities, get_center, spawn_bullet, spawn_rand_enemy};
use cannon_ai::entity::Cannon;
use cannon_ai::trig::{sin_fx, cos_fx, wrap_angle};

fn enemy_at(x: i64, y: i64) -> Enemy {
    Enemy {
        position: Point { x, y },
        direction: 0,
        velocity: Point { x: 0, y: 0 },
    }
}

fn bullet_at(x: i64, y: i64) -> Bullet {
    Bullet {
        position: Point { x, y },
        direction: 0,
        velocity: Point { x: 0, y: 0 },
    }
}

#[test]
fn magnitude_of_three_four_five_triangle() {
    let p = Point { x: 3000, y: 4000 };
    assert_eq!(p.magnitude(), 5000);
}

#[test]
fn point_sum_difference_scale() {
    let a = Point { x: 1000, y: -2000 };
    let b = Point { x: 300, y: 500 };
    let s = a.sum(&b);
    assert_eq!((s.x, s.y), (1300, -1500));
    let d = a.difference(&b);
    assert_eq!((d.x, d.y), (700, -2500));
    // scaling by one half in fixed point
    let h = a.scale(500);
    assert_eq!((h.x, h.y), (500, -1000));
}

#[test]
fn polar_angles_of_the_axes() {
    assert_eq!(Point { x: 1000, y: 0 }.arc_tan(), 0);
    assert_eq!(Point { x: 0, y: 1000 }.arc_tan(), 1570);
    assert_eq!(Point { x: -1000, y: 0 }.arc_tan(), 3140);
    assert_eq!(Point { x: 0, y: -1000 }.arc_tan(), 4710);
    // the diagonal: arctangent of 1 is an eighth of a circle
    assert_eq!(Point { x: 1000, y: 1000 }.arc_tan(), 785);
}

#[test]
fn sine_and_cosine_landmarks() {
    assert_eq!(sin_fx(0), 0);
    assert_eq!(sin_fx(1570), 1000);
    assert_eq!(sin_fx(3140), 0);
    assert_eq!(sin_fx(4710), -1000);
    assert_eq!(cos_fx(0), 1000);
    assert_eq!(cos_fx(3140), -1000);
    assert_eq!(wrap_angle(6280), 0);
    assert_eq!(wrap_angle(-10), 6270);
    assert_eq!(wrap_angle(12561), 1);
}

#[test]
fn enemy_on_facing_line_sets_forward_sector() {
    // Ray 0 points directly behind the turret, so the ray aligned with
    // the facing is ray 10.
    let center = Point { x: 400_000, y: 300_000 };
    let enemies = vec![enemy_at(700_000, 300_000)];
    let sensed = get_known_enemy_locations(0, center, &enemies);
    assert_eq!(sensed.len(), 20);
    for (i, v) in sensed.iter().enumerate() {
        if i == 10 {
            assert_eq!(*v, 1000);
        } else {
            assert_eq!(*v, 0);
        }
    }
}

#[test]
fn enemy_just_across_the_seam_is_seen_by_the_forward_ray() {
    // Facing 0: the forward ray's angle is 0, and an enemy just clockwise
    // of the facing line has a bearing just below a full circle.  The
    // angular difference is measured the shorter way around, so the
    // forward ray still reports it.
    let center = Point { x: 400_000, y: 300_000 };
    // 200 pixels out, 10 pixels below the facing line
    let enemies = vec![enemy_at(600_000, 290_000)];
    let sensed = get_known_enemy_locations(0, center, &enemies);
    assert_eq!(sensed[10], 1000);
    for (i, v) in sensed.iter().enumerate() {
        if i != 10 {
            assert_eq!(*v, 0, "sector {i}");
        }
    }
}

#[test]
fn enemy_beyond_visibility_radius_is_never_seen() {
    let center = Point { x: 400_000, y: 300_000 };
    // 500 pixels from the centre: outside the 400-pixel radius.
    let enemies = vec![enemy_at(900_000, 300_000)];
    let sensed = get_known_enemy_locations(0, center, &enemies);
    assert!(sensed.iter().all(|v| *v == 0));
}

#[test]
fn no_enemies_blank_sensor() {
    let center = Point { x: 400_000, y: 300_000 };
    let sensed = get_known_enemy_locations(1234, center, &vec![]);
    assert!(sensed.iter().all(|v| *v == 0));
}

#[test]
fn colliding_pair_is_removed_and_scores_one_kill() {
    let dims = Point { x: 800_000, y: 600_000 };
    // centres 60 pixels apart: within the 62.5 pixel hit radius
    let mut bullets = vec![bullet_at(100_000, 400_000)];
    let mut enemies = vec![enemy_at(100_000, 460_000)];
    let mut score: i64 = 0;
    destroy_entities(&dims, &mut enemies, &mut bullets, &mut score);
    assert!(bullets.is_empty());
    assert!(enemies.is_empty());
    assert_eq!(score, 1000);
}

#[test]
fn distant_pair_survives() {
    let dims = Point { x: 800_000, y: 600_000 };
    // centres 63 pixels apart: outside the hit radius
    let mut bullets = vec![bullet_at(100_000, 400_000)];
    let mut enemies = vec![enemy_at(100_000, 463_000)];
    let mut score: i64 = 0;
    destroy_entities(&dims, &mut enemies, &mut bullets, &mut score);
    assert_eq!(bullets.len(), 1);
    assert_eq!(enemies.len(), 1);
    assert_eq!(score, 0);
}

#[test]
fn out_of_bounds_bullet_is_removed_without_score_change() {
    let dims = Point { x: 800_000, y: 600_000 };
    let mut bullets = vec![bullet_at(-1, 300_000)];
    let mut enemies = vec![enemy_at(700_000, 300_000)];
    let mut score: i64 = 500;
    destroy_entities(&dims, &mut enemies, &mut bullets, &mut score);
    assert!(bullets.is_empty());
    assert_eq!(enemies.len(), 1);
    assert_eq!(score, 500);
}

#[test]
fn breaching_enemy_disappears() {
    let dims = Point { x: 800_000, y: 600_000 };
    let mut bullets: Vec<Bullet> = vec![];
    // 50 pixels from the centre: inside the 100 pixel breach radius
    let mut enemies = vec![enemy_at(450_000, 300_000)];
    let mut score: i64 = 0;
    destroy_entities(&dims, &mut enemies, &mut bullets, &mut score);
    assert!(enemies.is_empty());
    assert_eq!(score, 0);
}

#[test]
fn bullet_spawns_at_the_muzzle() {
    let dims = Point { x: 800_000, y: 600_000 };
    let cannon = Cannon::new();
    let mut bullets: Vec<Bullet> = vec![];
    spawn_bullet(&cannon, &mut bullets, &dims);
    assert_eq!(bullets.len(), 1);
    // facing 0: muzzle 90 pixels right of centre, full speed along x
    assert_eq!(bullets[0].position.x, 490_000);
    assert_eq!(bullets[0].position.y, 300_000);
    assert_eq!(bullets[0].velocity.x, 100_000);
    assert_eq!(bullets[0].velocity.y, 0);
    assert_eq!(bullets[0].direction, 0);
}

#[test]
fn enemy_spawns_on_the_ring_moving_inward() {
    let dims = Point { x: 800_000, y: 600_000 };
    let (cx, cy) = get_center(&dims);
    let mut enemies: Vec<Enemy> = vec![];
    spawn_rand_enemy(&mut enemies, &dims);
    assert_eq!(enemies.len(), 1);
    let e = &enemies[0];
    let dx = e.position.x - cx;
    let dy = e.position.y - cy;
    let dist = Point { x: dx, y: dy }.magnitude();
    // on the 401-pixel spawn ring, give or take fixed-point rounding
    assert!(398_000 <= dist && dist <= 404_000);
    // facing roughly back toward the centre at the fixed enemy speed
    assert!(e.velocity.x.abs() <= 25_000 && e.velocity.y.abs() <= 25_000);
    assert!(e.velocity.x * dx + e.velocity.y * dy < 0);
}
