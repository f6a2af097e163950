//! Button hover and click transitions.

use cannon_ai::ui::{ButtonState, point_inside, spacing};
use cannon_ai::entity::Point;

#[test]
fn hover_enter_and_exit_fire_once_each() {
    let mut b = ButtonState::new();
    let first = b.update(true, false, false);
    assert!(first.mouse_enter && first.mouse_hover);
    assert!(!first.mouse_down && !first.mouse_up && !first.mouse_exit);

    let second = b.update(true, false, false);
    assert!(!second.mouse_enter && second.mouse_hover);

    let third = b.update(false, false, false);
    assert!(third.mouse_exit);
    assert!(!third.mouse_enter && !third.mouse_hover && !third.mouse_down && !third.mouse_up);

    let fourth = b.update(false, false, false);
    assert!(!fourth.mouse_exit);
}

#[test]
fn press_and_release_only_inside() {
    let mut b = ButtonState::new();
    let press = b.update(true, true, false);
    assert!(press.mouse_down && !press.mouse_up);

    let release = b.update(true, false, true);
    assert!(!release.mouse_down && release.mouse_up);

    let outside = b.update(false, true, true);
    assert!(!outside.mouse_down && !outside.mouse_up);
}

#[test]
fn hit_test_covers_the_box_boundary() {
    let position = Point { x: 5_000, y: 5_000 };
    let size = Point { x: 20_000, y: 24_000 };
    assert!(point_inside(&position, &size, &Point { x: 5_000, y: 5_000 }));
    assert!(point_inside(&position, &size, &Point { x: 25_000, y: 29_000 }));
    assert!(point_inside(&position, &size, &Point { x: 15_000, y: 10_000 }));
    assert!(!point_inside(&position, &size, &Point { x: 25_001, y: 10_000 }));
    assert!(!point_inside(&position, &size, &Point { x: 4_999, y: 10_000 }));
}

#[test]
fn spacing_is_a_tenth_of_the_font_size() {
    assert_eq!(spacing(24), 2_400);
    assert_eq!(spacing(10), 1_000);
}
