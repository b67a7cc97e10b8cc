use chip_game::chips::{Button, Clock, Counter8b, Led, Nand, NumericDisplay, Switches, TieHigh, ROM};
use chip_game::catalog::default_rom_bytes;
use chip_game::cpu::CPU;
use chip_game::layout::{numbered_label, Pin, PinLayout};

fn plain(layout: &PinLayout) -> Vec<(Pin, Option<String>, bool)> {
    layout
        .pins
        .iter()
        .map(|(pin, def)| (*pin, def.label.clone(), def.initial_state))
        .collect()
}

fn labels(layout: &PinLayout) -> Vec<String> {
    layout.pins.iter().map(|(_, def)| def.label.clone().unwrap()).collect()
}

#[test]
fn numbered_labels() {
    assert_eq!(numbered_label("D", 0), "D0");
    assert_eq!(numbered_label("IN", 15), "IN15");
    assert_eq!(numbered_label("S", 1203), "S1203");
}

#[test]
fn single_tile_chips() {
    let high = TieHigh.setup();
    assert_eq!(high.size, (1, 1));
    assert_eq!(plain(&high), vec![(Pin::Right(0), Some("HIGH".to_string()), true)]);
    let led = Led.setup();
    assert_eq!(plain(&led), vec![(Pin::Left(0), Some("ON".to_string()), false)]);
    let button = Button.setup();
    assert_eq!(plain(&button), vec![(Pin::Right(0), Some("OUT".to_string()), false)]);
}

#[test]
fn clock_layout_starts_complementary() {
    let layout = Clock::new(30).setup();
    assert_eq!(layout.size, (1, 2));
    assert_eq!(
        plain(&layout),
        vec![
            (Pin::Right(0), Some("CLKB".to_string()), true),
            (Pin::Right(1), Some("CLK".to_string()), false),
        ]
    );
}

#[test]
fn counter_and_display_layouts() {
    let counter = Counter8b::new().setup();
    assert_eq!(counter.size, (2, 8));
    assert_eq!(labels(&counter), vec!["CLK", "C0", "C1", "C2", "C3", "C4", "C5", "C6", "C7"]);
    assert_eq!(counter.pins[0].0, Pin::Left(4));
    assert_eq!(counter.pins[8].0, Pin::Right(7));
    let display = NumericDisplay.setup();
    assert_eq!(display.size, (8, 4));
    assert_eq!(display.pins.len(), 8);
    assert_eq!(display.pins[5].0, Pin::Top(5));
    assert_eq!(display.pins[5].1.label.as_deref(), Some("C5"));
}

#[test]
fn nand_and_switch_layouts() {
    let nand = Nand::new(2).setup();
    assert_eq!(nand.size, (2, 4));
    assert_eq!(
        plain(&nand).into_iter().map(|(p, l, _)| (p, l.unwrap())).collect::<Vec<_>>(),
        vec![
            (Pin::Left(0), "IN0".to_string()),
            (Pin::Left(1), "IN1".to_string()),
            (Pin::Right(0), "OUT0".to_string()),
            (Pin::Left(2), "IN2".to_string()),
            (Pin::Left(3), "IN3".to_string()),
            (Pin::Right(2), "OUT1".to_string()),
        ]
    );
    let switches = Switches::new(3).setup();
    assert_eq!(switches.size, (4, 3));
    assert_eq!(labels(&switches), vec!["S0", "S1", "S2"]);
    assert_eq!(switches.pins[2].0, Pin::Right(2));
}

#[test]
fn rom_and_cpu_layouts() {
    let rom = ROM::from(default_rom_bytes()).setup();
    assert_eq!(rom.size, (2, 9));
    let rom_labels = labels(&rom);
    assert_eq!(rom_labels.len(), 18);
    assert_eq!(rom_labels[0], "D0");
    assert_eq!(rom.pins[0].0, Pin::Right(1));
    assert_eq!(rom_labels[8], "A0");
    assert_eq!(rom.pins[8].0, Pin::Left(1));
    assert_eq!(rom_labels[16..], ["CE".to_string(), "CLK".to_string()]);
    assert_eq!(rom.pins[17].0, Pin::Right(0));

    let cpu = CPU::new().setup();
    assert_eq!(cpu.size, (4, 14));
    let cpu_labels = labels(&cpu);
    assert_eq!(cpu_labels.len(), 20);
    assert_eq!(cpu.pins[7].0, Pin::Left(11));
    assert_eq!(cpu_labels[7], "D7");
    assert_eq!(cpu_labels[8 + 7], "A7");
    assert_eq!(cpu.pins[8 + 7].0, Pin::Right(7));
    assert_eq!(cpu_labels[16..], ["CE".to_string(), "IRQ".to_string(), "CLK".to_string(), "RW".to_string()]);
    let mut places: Vec<Pin> = cpu.pins.iter().map(|(p, _)| *p).collect();
    let before = places.len();
    places.sort_by_key(|p| format!("{:?}", p));
    places.dedup();
    assert_eq!(places.len(), before);
}
