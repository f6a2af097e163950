//! The hover and click logic of a screen button, kept apart from any
//! drawing: the transition core that decides which reactions fire on a
//! frame, and the hit test for the pointer.

use vstd::prelude::*;
use crate::entity::Point;

verus! {

/// The reactions a button may fire on one frame, in the order they are
/// meant to run: enter, then hover, then press or release; or exit.
pub struct ButtonEvents {
    pub mouse_enter: bool,
    pub mouse_hover: bool,
    pub mouse_down: bool,
    pub mouse_up: bool,
    pub mouse_exit: bool,
}

/// The part of a button the transition logic owns: whether the pointer
/// was over it on the previous frame.
pub struct ButtonState {
    pub mouse_hovering: bool,
}

impl ButtonState {
    /// A button the pointer is not over.
    pub fn new() -> (r: ButtonState)
        ensures
            !r.mouse_hovering,
    {
        ButtonState { mouse_hovering: false }
    }

    /// One frame of the button state machine.  Inside the button, the
    /// enter reaction fires on the frame the pointer arrives, the hover
    /// reaction every frame, and the press or release reaction when the
    /// primary button is down or was just released.  Leaving the button
    /// fires the exit reaction once.
    pub fn update(&mut self, inside: bool, button_down: bool, button_released: bool) -> (r:
        ButtonEvents)
        ensures
            final(self).mouse_hovering == inside,
            r.mouse_enter == (inside && !old(self).mouse_hovering),
            r.mouse_hover == inside,
            r.mouse_down == (inside && button_down),
            r.mouse_up == (inside && !button_down && button_released),
            r.mouse_exit == (!inside && old(self).mouse_hovering),
    {
        if inside {
            let entered = !self.mouse_hovering;
            self.mouse_hovering = true;
            ButtonEvents {
                mouse_enter: entered,
                mouse_hover: true,
                mouse_down: button_down,
                mouse_up: !button_down && button_released,
                mouse_exit: false,
            }
        } else {
            let exited = self.mouse_hovering;
            self.mouse_hovering = false;
            ButtonEvents {
                mouse_enter: false,
                mouse_hover: false,
                mouse_down: false,
                mouse_up: false,
                mouse_exit: exited,
            }
        }
    }
}

/// Letter spacing for a font size, in fixed-point units: a tenth of the
/// font size.
pub fn spacing(font_size: i64) -> (r: i64)
    requires
        0 <= font_size <= 1_000_000,
    ensures
        r == font_size * 100,
{
    font_size * 100
}

/// Whether `point` lies in the axis-aligned box at `position` of extent
/// `size`.
pub fn point_inside(position: &Point, size: &Point, point: &Point) -> (r: bool)
    requires
        -1_000_000_000 <= position.x <= 1_000_000_000,
        -1_000_000_000 <= position.y <= 1_000_000_000,
        0 <= size.x <= 1_000_000_000,
        0 <= size.y <= 1_000_000_000,
    ensures
        r == (point.x >= position.x && point.x <= position.x + size.x && point.y
            >= position.y && point.y <= position.y + size.y),
{
    point.x >= position.x && point.x <= position.x + size.x && point.y >= position.y
        && point.y <= position.y + size.y
}

} // verus!
