use chip_game::catalog::UiInputResult;
use chip_game::pointer::{
    camera_pan_direction, object_pointer_step, starts_drag_selection, world_buttons, PointerEvents,
    WorldButtons,
};

fn events(hovered: bool, enter: bool, exit: bool, click: bool, release: bool) -> PointerEvents {
    PointerEvents { hovered, enter, exit, click, release }
}

#[test]
fn hovering_entering_and_leaving() {
    assert_eq!(object_pointer_step(false, Some(true), false, false, false), events(true, true, false, false, false));
    assert_eq!(object_pointer_step(false, Some(true), true, true, false), events(true, false, false, true, false));
    assert_eq!(object_pointer_step(false, Some(false), true, true, true), events(false, false, true, false, false));
    assert_eq!(object_pointer_step(false, Some(true), true, false, true), events(true, false, false, false, true));
    assert_eq!(object_pointer_step(false, None, true, true, true), events(true, false, false, false, false));
}

#[test]
fn the_palette_hides_the_world() {
    assert_eq!(object_pointer_step(true, Some(true), true, true, true), events(false, false, true, false, false));
    assert_eq!(object_pointer_step(true, None, false, true, false), events(false, false, false, false, false));
}

#[test]
fn buttons_left_for_the_world() {
    let ui = UiInputResult { consume_world_left_click: true, consume_world_left_release: false, pointer_over_menu: true };
    assert_eq!(world_buttons(true, true, ui), WorldButtons { clicked: false, released: true });
    assert_eq!(world_buttons(true, false, UiInputResult::default()), WorldButtons { clicked: true, released: false });
    assert!(starts_drag_selection(true, false));
    assert!(!starts_drag_selection(true, true));
    assert!(!starts_drag_selection(false, false));
}

#[test]
fn panning_direction() {
    assert_eq!(camera_pan_direction(false, false, false, false), (0, 0));
    assert_eq!(camera_pan_direction(true, true, false, true), (-1, 1));
    assert_eq!(camera_pan_direction(false, true, true, true), (1, -1));
}
