//! How the mouse and the keyboard drive the objects of the world in one frame:
//! hovering, clicking, releasing, drag selection and panning the view.

use vstd::prelude::*;

use crate::catalog::UiInputResult;

verus! {

/// The left button events that reach the world once the palette has taken
/// what it uses.
#[derive(Clone, Copy, Debug, PartialEq, Eq)]
pub struct WorldButtons {
    pub clicked: bool,
    pub released: bool,
}

/// The left button events of a frame that are left for the world.
pub fn world_buttons(left_pressed: bool, left_released: bool, ui: UiInputResult) -> (r: WorldButtons)
    ensures
        r.clicked == (left_pressed && !ui.consume_world_left_click),
        r.released == (left_released && !ui.consume_world_left_release),
{
    WorldButtons {
        clicked: left_pressed && !ui.consume_world_left_click,
        released: left_released && !ui.consume_world_left_release,
    }
}

/// What happens to one object of the world in a frame.
#[derive(Clone, Copy, Debug, PartialEq, Eq)]
pub struct PointerEvents {
    /// Whether the object is hovered after the frame.
    pub hovered: bool,
    /// The pointer came onto the object.
    pub enter: bool,
    /// The pointer left the object.
    pub exit: bool,
    /// The object was clicked.
    pub click: bool,
    /// The button was released over the object.
    pub release: bool,
}

/// One object in one frame. `inside` is whether the pointer is within the
/// object's shape, `None` for an object without a shape; `hovered` is whether
/// it was hovered before. While the pointer is over the palette every object
/// loses its hover and gets nothing else; an object without a shape gets
/// nothing at all; otherwise the object is hovered exactly when the pointer
/// is inside it, hears of each change, and gets the clicks and releases made
/// inside it.
pub fn object_pointer_step(
    over_menu: bool,
    inside: Option<bool>,
    hovered: bool,
    clicked: bool,
    released: bool,
) -> (r: PointerEvents)
    ensures
        r == object_pointer_spec(over_menu, inside, hovered, clicked, released),
{
    let mut events = PointerEvents {
        hovered,
        enter: false,
        exit: false,
        click: false,
        release: false,
    };
    if over_menu {
        if hovered {
            events.hovered = false;
            events.exit = true;
        }
        return events;
    }
    let is_inside = match inside {
        Some(b) => b,
        None => {
            return events;
        },
    };
    if is_inside && !events.hovered {
        events.hovered = true;
        events.enter = true;
    }
    if !is_inside && events.hovered {
        events.hovered = false;
        events.exit = true;
    }
    if is_inside && clicked {
        events.click = true;
    }
    if is_inside && released {
        events.release = true;
    }
    events
}

/// Every object is hovered after a frame exactly when the pointer, off the
/// palette, is inside its shape; and it hears of entering or leaving exactly
/// when that changed.
pub proof fn lemma_hover_follows_pointer(
    over_menu: bool,
    inside: bool,
    hovered: bool,
    clicked: bool,
    released: bool,
)
    ensures
        ({
            let r = object_pointer_spec(over_menu, Some(inside), hovered, clicked, released);
            &&& r.hovered == (!over_menu && inside)
            &&& r.enter == (!hovered && r.hovered)
            &&& r.exit == (hovered && !r.hovered)
        }),
{
}

/// The events of one object in one frame, as `object_pointer_step` computes them.
pub open spec fn object_pointer_spec(
    over_menu: bool,
    inside: Option<bool>,
    hovered: bool,
    clicked: bool,
    released: bool,
) -> PointerEvents {
    if over_menu {
        PointerEvents { hovered: false, enter: false, exit: hovered, click: false, release: false }
    } else if inside is None {
        PointerEvents { hovered, enter: false, exit: false, click: false, release: false }
    } else {
        PointerEvents {
            hovered: inside->0,
            enter: inside->0 && !hovered,
            exit: !inside->0 && hovered,
            click: inside->0 && clicked,
            release: inside->0 && released,
        }
    }
}

/// A drag selection starts where the world was clicked and no object took
/// the click.
pub fn starts_drag_selection(clicked: bool, any_object_clicked: bool) -> (r: bool)
    ensures
        r == (clicked && !any_object_clicked),
{
    clicked && !any_object_clicked
}

/// The direction the view pans in from the movement keys held: `A` and `D`
/// left and right, `W` and `S` up and down; where both keys of a pair are
/// held the first one wins.
pub fn camera_pan_direction(left: bool, right: bool, up: bool, down: bool) -> (r: (i8, i8))
    ensures
        r.0 == if left {
            -1int
        } else if right {
            1int
        } else {
            0int
        },
        r.1 == if up {
            -1int
        } else if down {
            1int
        } else {
            0int
        },
{
    let x: i8 = if left {
        -1
    } else if right {
        1
    } else {
        0
    };
    let y: i8 = if up {
        -1
    } else if down {
        1
    } else {
        0
    };
    (x, y)
}

} // verus!
