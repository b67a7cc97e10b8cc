use chip_game::ids::{ChipId, ObjectId, PinId};
use chip_game::selection::{zip_pins, HoveredPins, PinClick, PinObjectIds, PinSelection, Selection};

#[test]
fn hovered_pins() {
    let mut hovered = HoveredPins::default();
    assert!(!hovered.contains_either(PinId(1), PinId(2)));
    hovered.set(&[PinId(1), PinId(3)]);
    assert!(hovered.contains_either(PinId(2), PinId(3)));
    hovered.remove_one(PinId(3));
    assert!(!hovered.contains_either(PinId(2), PinId(3)));
    assert!(hovered.contains_either(PinId(1), PinId(3)));
    hovered.set(&[PinId(7)]);
    assert!(!hovered.contains_either(PinId(1), PinId(3)));
    hovered.clear();
    assert!(!hovered.contains_either(PinId(7), PinId(7)));
}

#[test]
fn selecting_pins_and_chips() {
    let mut selection = Selection::default();
    assert_eq!(selection, Selection::Nothing);
    assert_eq!(selection.select_pin(PinId(4)), None);
    assert_eq!(selection, Selection::Pin(PinId(4)));
    assert_eq!(selection.select_pin(PinId(5)), Some(PinSelection::One(PinId(4))));
    assert_eq!(selection, Selection::Pin(PinId(4)));
    selection.select_chip(ChipId(2));
    assert_eq!(selection.select_pin(PinId(6)), None);
    let mut multi = Selection::MultiPins(vec![PinId(1), PinId(2)]);
    assert_eq!(
        multi.select_pin(PinId(9)),
        Some(PinSelection::Multiple(&[PinId(1), PinId(2)]))
    );
    multi.reset();
    assert_eq!(multi, Selection::Nothing);
}

#[test]
fn deleting_the_selected_chip() {
    let mut selection = Selection::Chip(ChipId(3));
    assert_eq!(selection.update(false), None);
    assert_eq!(selection, Selection::Chip(ChipId(3)));
    assert_eq!(selection.update(true), Some(ChipId(3)));
    assert_eq!(selection, Selection::Nothing);
    let mut pin = Selection::Pin(PinId(1));
    assert_eq!(pin.update(true), None);
}

#[test]
fn clicking_pins() {
    let mut selection = Selection::default();
    assert_eq!(selection.click_pin(PinId(3)), PinClick::Selected);
    assert_eq!(selection, Selection::Pin(PinId(3)));
    assert_eq!(selection.click_pin(PinId(8)), PinClick::Toggle(PinId(3), PinId(8)));
    assert_eq!(selection, Selection::Nothing);
    let mut range = Selection::MultiPins(vec![PinId(1), PinId(2)]);
    assert_eq!(range.click_pin(PinId(9)), PinClick::ConnectRange(vec![PinId(1), PinId(2)]));
    assert_eq!(range, Selection::Nothing);
    let mut chip = Selection::Chip(ChipId(4));
    assert_eq!(chip.click_pin(PinId(5)), PinClick::Selected);
    assert_eq!(chip, Selection::Pin(PinId(5)));
}

#[test]
fn dragging_over_pins() {
    assert_eq!(Selection::from_dragged_pins(vec![]), Selection::Nothing);
    assert_eq!(
        Selection::from_dragged_pins(vec![PinId(4), PinId(6)]),
        Selection::MultiPins(vec![PinId(4), PinId(6)])
    );
    let mut shown = PinObjectIds::default();
    shown.register(ObjectId(10), PinId(1));
    shown.register(ObjectId(12), PinId(2));
    shown.register(ObjectId(10), PinId(3));
    assert_eq!(
        shown.pins_of_objects(&[ObjectId(12), ObjectId(11), ObjectId(10)]),
        vec![PinId(2), PinId(3)]
    );
}

#[test]
fn pairing_pin_ranges() {
    let a = [PinId(1), PinId(2), PinId(3)];
    let b = [PinId(7), PinId(8)];
    assert_eq!(zip_pins(&a, &b), vec![(PinId(1), PinId(7)), (PinId(2), PinId(8))]);
    assert_eq!(zip_pins(&b, &[]), vec![]);
}

#[test]
fn pin_names() {
    assert_eq!(chip_game::selection::pin_label(&Some("CLK".to_string()), PinId(3)), "CLK");
    assert_eq!(chip_game::selection::pin_label(&None, PinId(42)), "Pin 42");
}
