use chip_game::catalog::default_rom_bytes;
use chip_game::chips::{
    ButtonObj, Clock, Counter8b, Nand, NumericDisplay, NumericDisplayObj, ProgrammableChipObj,
    SwitchChip, Switches, ROMObj, ROMUi, ROM,
};
use chip_game::selection::Selection;
use chip_game::ids::ChipId;

#[test]
fn clock_toggles_every_interval() {
    let mut clock = Clock::new(3);
    let toggles: Vec<bool> = (0..7).map(|_| clock.update()).collect();
    assert_eq!(toggles, vec![false, false, true, false, false, true, false]);
    let mut never = Clock::new(0);
    assert!((0..10).all(|_| !never.update()));
}

#[test]
fn nand_gates() {
    let nand = Nand::new(2);
    assert_eq!(nand.update(&[false, false, true, true]), vec![true, false]);
    assert_eq!(nand.update(&[true, false, false, true]), vec![true, true]);
}

#[test]
fn counter_counts_falling_edges() {
    let mut counter = Counter8b::default();
    assert_eq!(counter.update(false), None);
    assert_eq!(counter.update(true), Some([true, false, false, false, false, false, false, false]));
    assert_eq!(counter.update(true), Some([false, true, false, false, false, false, false, false]));
    for _ in 0..253 {
        counter.update(true);
    }
    assert_eq!(counter.update(true), Some([false; 8]));
}

#[test]
fn rom_reads_what_was_written() {
    let mut rom = ROM::from(default_rom_bytes());
    assert_eq!(rom.update(true, true, 42), Some(42));
    rom.set(42, 7);
    assert_eq!(rom.update(true, true, 42), Some(7));
    assert_eq!(rom.get(41), 41);
    assert_eq!(rom.update(false, true, 42), None);
    assert_eq!(rom.update(true, false, 42), None);
}

#[test]
fn rom_editor_shows_and_edits_hex() {
    let mut rom = ROM::from(default_rom_bytes());
    rom.set(0x1f, 0xab);
    let mut ui = ROMUi::new(ChipId(5), &rom);
    assert_eq!(ui.chip_id(), ChipId(5));
    assert_eq!(ui.cell(0, 0), "00");
    assert_eq!(ui.cell(1, 15), "ab");
    assert_eq!(ui.cell(15, 15), "ff");
    ui.edit_cell(2, 3, "7F".to_string());
    assert_eq!(ui.cell(2, 3), "7F");
    assert_eq!(ui.bytes()[0x23], 0x7f);
    ui.edit_cell(2, 4, "g".to_string());
    assert_eq!(ui.bytes()[0x24], 0x24);
    ui.edit_cell(2, 5, "+1".to_string());
    assert_eq!(ui.bytes()[0x25], 1);
    ui.edit_cell(2, 6, String::new());
    assert_eq!(ui.bytes()[0x26], 0x26);
    ui.edit_cell(2, 7, "100".to_string());
    assert_eq!(ui.bytes()[0x27], 0x27);
    assert_eq!(ui.cell(2, 7), "100");
}

#[test]
fn chip_objects() {
    assert_eq!(ButtonObj::from(ChipId(1)), ButtonObj { chip: ChipId(1), state: false });
    assert_eq!(NumericDisplayObj::from(ChipId(2)).0, ChipId(2));
    assert_eq!(ROMObj::from(ChipId(3)).0, ChipId(3));
    assert_eq!(ProgrammableChipObj::from(ChipId(4)).0, ChipId(4));
    let s = SwitchChip::new(ChipId(6), 8);
    assert_eq!((s.chip, s.switches), (ChipId(6), 8));
    let _ = Switches::new(8);
}

#[test]
fn display_shows_the_high_inputs() {
    assert_eq!(NumericDisplay::shown_number(&[]), 0);
    assert_eq!(NumericDisplay::shown_number(&[Some(true), None, Some(false), Some(true)]), 9);
    assert_eq!(NumericDisplay::shown_number(&[Some(true); 8]), 255);
    assert_eq!(
        NumericDisplay::shown_number(&[None, Some(true), None, None, None, None, None, Some(true)]),
        130
    );
}

#[test]
fn rom_editor_round_trip() {
    let mut rom = ROM::from(default_rom_bytes());
    let mut editor = ROMUi::new(ChipId(1), &rom);
    assert!(ROMUi::accepts_char('f', 1));
    assert!(ROMUi::accepts_char('A', 0));
    assert!(!ROMUi::accepts_char('g', 0));
    assert!(!ROMUi::accepts_char('1', 2));
    editor.edit_cell(0, 3, "ff".to_string());
    rom.load_edits(&editor);
    assert_eq!(rom.get(3), 255);
    assert_eq!(rom.get(4), 4);
    let obj = ROMObj::from(ChipId(1));
    assert!(obj.opens_editor(&Selection::Chip(ChipId(1))));
    assert!(!obj.opens_editor(&Selection::Chip(ChipId(2))));
    assert!(!obj.opens_editor(&Selection::Nothing));
}

#[test]
fn display_reads_counter_outputs() {
    let mut counter = Counter8b::new();
    let mut last = None;
    for _ in 0..77 {
        last = counter.update(true);
    }
    let levels: Vec<Option<bool>> = last.unwrap().iter().map(|b| Some(*b)).collect();
    assert_eq!(NumericDisplay::shown_number(&levels), 77);
}
