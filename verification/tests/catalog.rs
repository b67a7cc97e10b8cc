use chip_game::catalog::{
    default_rom_bytes, hotkey_to_catalog_index, keycode_to_catalog_index, menu_hotkey_label,
    menu_item_look, placement_step, ChipTemplate, FullscreenState, HotKey, ItemLook,
    PlacementInput, PlacementStep, TemplateChip, UiInputResult, CHIP_CATALOG,
};

#[test]
fn chip_template_metadata_is_non_empty_and_sized() {
    for template in CHIP_CATALOG {
        assert!(!template.label().is_empty());
        let size = template.tile_size();
        assert!(size.x > 0);
        assert!(size.y > 0);
    }
}

#[test]
fn default_rom_is_identity() {
    let rom = default_rom_bytes();
    for i in 0..=u8::MAX {
        assert_eq!(rom[i as usize], i);
    }
}

#[test]
fn labels_sizes_and_hotkeys() {
    assert_eq!(ChipTemplate::NumericDisplay.label(), "Numeric Display");
    assert_eq!(ChipTemplate::Counter8b.label(), "Counter 8-bit");
    let cpu = ChipTemplate::Cpu.tile_size();
    assert_eq!((cpu.x, cpu.y), (4, 14));
    let labels: Vec<&str> = (0..11).map(menu_hotkey_label).collect();
    assert_eq!(labels, vec!["1", "2", "3", "4", "5", "6", "7", "8", "9", "0", "?"]);
}

#[test]
fn interface_state() {
    let r = UiInputResult::default();
    assert!(!r.consume_world_left_click && !r.consume_world_left_release && !r.pointer_over_menu);
    let mut fs = FullscreenState::default();
    assert_eq!(fs.update(false), None);
    assert_eq!(fs.update(true), Some(true));
    assert_eq!(fs.update(true), Some(false));
}

#[test]
fn hotkeys_pick_palette_entries() {
    assert_eq!(keycode_to_catalog_index(HotKey::Key1), Some(0));
    assert_eq!(keycode_to_catalog_index(HotKey::Key0), Some(9));
    assert_eq!(keycode_to_catalog_index(HotKey::Key5), Some(4));
    assert_eq!(keycode_to_catalog_index(HotKey::Other), None);
    let mut pressed = [false; 10];
    assert_eq!(hotkey_to_catalog_index(&pressed), None);
    pressed[9] = true;
    assert_eq!(hotkey_to_catalog_index(&pressed), Some(9));
    pressed[3] = true;
    assert_eq!(hotkey_to_catalog_index(&pressed), Some(3));
}

#[test]
fn palette_entries_build_their_chips() {
    for template in CHIP_CATALOG {
        let kind = match template.build() {
            TemplateChip::Cpu(cpu) => {
                assert_eq!(cpu.program_counter(), 0);
                ChipTemplate::Cpu
            }
            TemplateChip::Rom(rom) => {
                assert_eq!(rom.get(200), 200);
                ChipTemplate::Rom
            }
            TemplateChip::TieHigh(_) => ChipTemplate::TieHigh,
            TemplateChip::Button(_) => ChipTemplate::Button,
            TemplateChip::Switches(s) => {
                assert_eq!(s.setup().pins.len(), 8);
                ChipTemplate::Switches
            }
            TemplateChip::NumericDisplay(_) => ChipTemplate::NumericDisplay,
            TemplateChip::Clock(mut clock) => {
                let toggles = (0..30).filter(|_| clock.update()).count();
                assert_eq!(toggles, 1);
                ChipTemplate::Clock
            }
            TemplateChip::Counter8b(mut c) => {
                assert_eq!(c.update(true), Some([true, false, false, false, false, false, false, false]));
                ChipTemplate::Counter8b
            }
            TemplateChip::Led(_) => ChipTemplate::Led,
            TemplateChip::Nand(n) => {
                assert_eq!(n.update(&[true, true, false, true]), vec![false, true]);
                ChipTemplate::Nand
            }
        };
        assert_eq!(kind, template);
    }
}

fn frame() -> PlacementInput {
    PlacementInput {
        selected: None,
        hotkey: None,
        cancel: false,
        pointer_over_menu: false,
        hovered: None,
        left_pressed: false,
        left_released: false,
        keep_placing: false,
    }
}

fn result(click: bool, release: bool, over: bool) -> UiInputResult {
    UiInputResult {
        consume_world_left_click: click,
        consume_world_left_release: release,
        pointer_over_menu: over,
    }
}

#[test]
fn choosing_from_the_palette() {
    let step = placement_step(PlacementInput { hotkey: Some(2), ..frame() });
    assert_eq!(
        step,
        PlacementStep { selected: Some(ChipTemplate::TieHigh), place: None, result: result(false, false, false) }
    );
    let step = placement_step(PlacementInput { hotkey: Some(12), selected: Some(ChipTemplate::Led), ..frame() });
    assert_eq!(step.selected, Some(ChipTemplate::Led));
    let step = placement_step(PlacementInput {
        pointer_over_menu: true,
        hovered: Some(7),
        left_pressed: true,
        left_released: true,
        ..frame()
    });
    assert_eq!(
        step,
        PlacementStep { selected: Some(ChipTemplate::Counter8b), place: None, result: result(true, true, true) }
    );
    let step = placement_step(PlacementInput { selected: Some(ChipTemplate::Nand), cancel: true, left_pressed: true, ..frame() });
    assert_eq!(step, PlacementStep { selected: None, place: None, result: result(false, false, false) });
}

#[test]
fn placing_from_the_palette() {
    let step = placement_step(PlacementInput { selected: Some(ChipTemplate::Clock), left_pressed: true, ..frame() });
    assert_eq!(
        step,
        PlacementStep { selected: None, place: Some(ChipTemplate::Clock), result: result(true, false, false) }
    );
    let step = placement_step(PlacementInput {
        selected: Some(ChipTemplate::Clock),
        left_pressed: true,
        keep_placing: true,
        ..frame()
    });
    assert_eq!(step.selected, Some(ChipTemplate::Clock));
    assert_eq!(step.place, Some(ChipTemplate::Clock));
    let step = placement_step(PlacementInput { left_pressed: true, left_released: true, ..frame() });
    assert_eq!(step, PlacementStep { selected: None, place: None, result: result(false, false, false) });
}

#[test]
fn palette_entry_looks() {
    assert_eq!(menu_item_look(0, None, None), ItemLook::Plain);
    assert_eq!(menu_item_look(3, Some(3), None), ItemLook::Hovered);
    assert_eq!(menu_item_look(3, Some(3), Some(ChipTemplate::Button)), ItemLook::Selected);
    assert_eq!(menu_item_look(4, Some(3), Some(ChipTemplate::Button)), ItemLook::Plain);
}

#[test]
fn menu_hit_test_and_hotkey_mapping() {
    // The hit test itself is screen geometry in floats, kept with the window code;
    // the key mapping is the library's.
    assert_eq!(keycode_to_catalog_index(HotKey::Key1), Some(0));
    assert_eq!(keycode_to_catalog_index(HotKey::Key0), Some(9));
    assert_eq!(keycode_to_catalog_index(HotKey::Other), None);
}
