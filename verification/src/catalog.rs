//! The chip palette: which chips the player can place, their names, sizes
//! and hotkeys, and the small pieces of interface state around it.

use vstd::prelude::*;

use crate::chips::{Button, Clock, Counter8b, Led, Nand, NumericDisplay, Switches, TieHigh, ROM, lemma_rom_from_contents};
use crate::cpu::CPU;

verus! {

/// A kind of chip that the palette offers.
#[derive(Clone, Copy, Debug, PartialEq, Eq, Hash, Structural)]
pub enum ChipTemplate {
    Cpu,
    Rom,
    TieHigh,
    Button,
    Switches,
    NumericDisplay,
    Clock,
    Counter8b,
    Led,
    Nand,
}

/// The palette, in menu order; entry `i` has hotkey `menu_hotkey_label(i)`.
pub const CHIP_CATALOG: [ChipTemplate; 10] = [
    ChipTemplate::Cpu,
    ChipTemplate::Rom,
    ChipTemplate::TieHigh,
    ChipTemplate::Button,
    ChipTemplate::Switches,
    ChipTemplate::NumericDisplay,
    ChipTemplate::Clock,
    ChipTemplate::Counter8b,
    ChipTemplate::Led,
    ChipTemplate::Nand,
];

/// A size in grid tiles.
#[derive(Clone, Copy, Debug, PartialEq, Eq)]
pub struct TileSize {
    pub x: u32,
    pub y: u32,
}

pub open spec fn template_label(t: ChipTemplate) -> Seq<char> {
    match t {
        ChipTemplate::Cpu => "CPU"@,
        ChipTemplate::Rom => "ROM"@,
        ChipTemplate::TieHigh => "Tie High"@,
        ChipTemplate::Button => "Button"@,
        ChipTemplate::Switches => "Switches"@,
        ChipTemplate::NumericDisplay => "Numeric Display"@,
        ChipTemplate::Clock => "Clock"@,
        ChipTemplate::Counter8b => "Counter 8-bit"@,
        ChipTemplate::Led => "LED"@,
        ChipTemplate::Nand => "NAND"@,
    }
}

/// Width and height in tiles of each chip as placed from the palette.
pub open spec fn template_size(t: ChipTemplate) -> (u32, u32) {
    match t {
        ChipTemplate::Cpu => (4, 14),
        ChipTemplate::Rom => (2, 9),
        ChipTemplate::TieHigh => (1, 1),
        ChipTemplate::Button => (1, 1),
        ChipTemplate::Switches => (4, 8),
        ChipTemplate::NumericDisplay => (8, 4),
        ChipTemplate::Clock => (1, 2),
        ChipTemplate::Counter8b => (2, 8),
        ChipTemplate::Led => (1, 1),
        ChipTemplate::Nand => (2, 4),
    }
}

impl ChipTemplate {
    pub fn label(self) -> (r: &'static str)
        ensures
            r@ == template_label(self),
    {
        match self {
            ChipTemplate::Cpu => "CPU",
            ChipTemplate::Rom => "ROM",
            ChipTemplate::TieHigh => "Tie High",
            ChipTemplate::Button => "Button",
            ChipTemplate::Switches => "Switches",
            ChipTemplate::NumericDisplay => "Numeric Display",
            ChipTemplate::Clock => "Clock",
            ChipTemplate::Counter8b => "Counter 8-bit",
            ChipTemplate::Led => "LED",
            ChipTemplate::Nand => "NAND",
        }
    }

    pub fn tile_size(self) -> (r: TileSize)
        ensures
            (r.x, r.y) == template_size(self),
    {
        match self {
            ChipTemplate::Cpu => TileSize { x: 4, y: 14 },
            ChipTemplate::Rom => TileSize { x: 2, y: 9 },
            ChipTemplate::TieHigh => TileSize { x: 1, y: 1 },
            ChipTemplate::Button => TileSize { x: 1, y: 1 },
            ChipTemplate::Switches => TileSize { x: 4, y: 8 },
            ChipTemplate::NumericDisplay => TileSize { x: 8, y: 4 },
            ChipTemplate::Clock => TileSize { x: 1, y: 2 },
            ChipTemplate::Counter8b => TileSize { x: 2, y: 8 },
            ChipTemplate::Led => TileSize { x: 1, y: 1 },
            ChipTemplate::Nand => TileSize { x: 2, y: 4 },
        }
    }
}

/// Every chip of the palette has a name and takes at least one tile each way.
pub proof fn lemma_template_metadata(t: ChipTemplate)
    ensures
        template_label(t).len() > 0,
        template_size(t).0 > 0,
        template_size(t).1 > 0,
{
    reveal_strlit("CPU");
    reveal_strlit("ROM");
    reveal_strlit("Tie High");
    reveal_strlit("Button");
    reveal_strlit("Switches");
    reveal_strlit("Numeric Display");
    reveal_strlit("Clock");
    reveal_strlit("Counter 8-bit");
    reveal_strlit("LED");
    reveal_strlit("NAND");
}

/// No two palette entries share a name.
pub proof fn lemma_template_labels_distinct(i: int, j: int)
    requires
        0 <= i < 10,
        0 <= j < 10,
        i != j,
    ensures
        template_label(CHIP_CATALOG@[i]) != template_label(CHIP_CATALOG@[j]),
{
    reveal_strlit("CPU");
    reveal_strlit("ROM");
    reveal_strlit("Tie High");
    reveal_strlit("Button");
    reveal_strlit("Switches");
    reveal_strlit("Numeric Display");
    reveal_strlit("Clock");
    reveal_strlit("Counter 8-bit");
    reveal_strlit("LED");
    reveal_strlit("NAND");
    assert(CHIP_CATALOG@ =~= seq![
        ChipTemplate::Cpu,
        ChipTemplate::Rom,
        ChipTemplate::TieHigh,
        ChipTemplate::Button,
        ChipTemplate::Switches,
        ChipTemplate::NumericDisplay,
        ChipTemplate::Clock,
        ChipTemplate::Counter8b,
        ChipTemplate::Led,
        ChipTemplate::Nand,
    ]);
    let li = template_label(CHIP_CATALOG@[i]);
    let lj = template_label(CHIP_CATALOG@[j]);
    if li.len() == lj.len() {
        assert(li[0] != lj[0]);
    }
}

/// The hotkey of palette entry `index`: `1` to `9` for the first nine, `0`
/// for the tenth, `?` beyond.
pub open spec fn hotkey_label(index: usize) -> Seq<char> {
    if index == 0 {
        "1"@
    } else if index == 1 {
        "2"@
    } else if index == 2 {
        "3"@
    } else if index == 3 {
        "4"@
    } else if index == 4 {
        "5"@
    } else if index == 5 {
        "6"@
    } else if index == 6 {
        "7"@
    } else if index == 7 {
        "8"@
    } else if index == 8 {
        "9"@
    } else if index == 9 {
        "0"@
    } else {
        "?"@
    }
}

pub fn menu_hotkey_label(index: usize) -> (r: &'static str)
    ensures
        r@ == hotkey_label(index),
{
    match index {
        0 => "1",
        1 => "2",
        2 => "3",
        3 => "4",
        4 => "5",
        5 => "6",
        6 => "7",
        7 => "8",
        8 => "9",
        9 => "0",
        _ => "?",
    }
}

/// The ten palette entries have ten different hotkeys, each a single digit.
pub proof fn lemma_hotkeys_distinct(i: usize, j: usize)
    requires
        i < 10,
        j < 10,
        i != j,
    ensures
        hotkey_label(i) != hotkey_label(j),
        hotkey_label(i).len() == 1,
        '0' <= hotkey_label(i)[0] <= '9',
{
    reveal_strlit("0");
    reveal_strlit("1");
    reveal_strlit("2");
    reveal_strlit("3");
    reveal_strlit("4");
    reveal_strlit("5");
    reveal_strlit("6");
    reveal_strlit("7");
    reveal_strlit("8");
    reveal_strlit("9");
    assert(hotkey_label(i)[0] != hotkey_label(j)[0]);
}

/// A key as the palette sees it: the digit keys, in palette order, and any other key.
#[derive(Clone, Copy, Debug, PartialEq, Eq, Hash, Structural)]
pub enum HotKey {
    Key1,
    Key2,
    Key3,
    Key4,
    Key5,
    Key6,
    Key7,
    Key8,
    Key9,
    Key0,
    Other,
}

/// The character printed on a digit key.
pub open spec fn key_digit(key: HotKey) -> Option<char> {
    match key {
        HotKey::Key1 => Some('1'),
        HotKey::Key2 => Some('2'),
        HotKey::Key3 => Some('3'),
        HotKey::Key4 => Some('4'),
        HotKey::Key5 => Some('5'),
        HotKey::Key6 => Some('6'),
        HotKey::Key7 => Some('7'),
        HotKey::Key8 => Some('8'),
        HotKey::Key9 => Some('9'),
        HotKey::Key0 => Some('0'),
        HotKey::Other => None,
    }
}

/// The palette entry that a key selects: `1` to `9` the first nine, `0` the tenth.
pub open spec fn key_index(key: HotKey) -> Option<usize> {
    match key {
        HotKey::Key1 => Some(0),
        HotKey::Key2 => Some(1),
        HotKey::Key3 => Some(2),
        HotKey::Key4 => Some(3),
        HotKey::Key5 => Some(4),
        HotKey::Key6 => Some(5),
        HotKey::Key7 => Some(6),
        HotKey::Key8 => Some(7),
        HotKey::Key9 => Some(8),
        HotKey::Key0 => Some(9),
        HotKey::Other => None,
    }
}

pub fn keycode_to_catalog_index(key: HotKey) -> (r: Option<usize>)
    ensures
        r == key_index(key),
{
    match key {
        HotKey::Key1 => Some(0),
        HotKey::Key2 => Some(1),
        HotKey::Key3 => Some(2),
        HotKey::Key4 => Some(3),
        HotKey::Key5 => Some(4),
        HotKey::Key6 => Some(5),
        HotKey::Key7 => Some(6),
        HotKey::Key8 => Some(7),
        HotKey::Key9 => Some(8),
        HotKey::Key0 => Some(9),
        HotKey::Other => None,
    }
}

/// A digit key selects exactly the palette entry whose menu label is that
/// key's digit; every other key selects nothing.
pub proof fn lemma_hotkey_matches_label(key: HotKey, index: usize)
    requires
        index < 10,
    ensures
        key_index(key) == Some(index) <==> (key_digit(key) matches Some(d) && hotkey_label(index) == seq![d]),
        key_digit(key) is None <==> key_index(key) is None,
{
    reveal_strlit("0");
    reveal_strlit("1");
    reveal_strlit("2");
    reveal_strlit("3");
    reveal_strlit("4");
    reveal_strlit("5");
    reveal_strlit("6");
    reveal_strlit("7");
    reveal_strlit("8");
    reveal_strlit("9");
    assert(hotkey_label(index).len() == 1);
    if let Some(d) = key_digit(key) {
        if hotkey_label(index) == seq![d] {
            assert(hotkey_label(index)[0] == d);
        }
        if key_index(key) == Some(index) {
            assert(hotkey_label(index) =~= seq![d]);
        }
    }
}

/// The palette's hotkeys, in the order they are polled.
pub const HOTKEYS: [HotKey; 10] = [
    HotKey::Key1,
    HotKey::Key2,
    HotKey::Key3,
    HotKey::Key4,
    HotKey::Key5,
    HotKey::Key6,
    HotKey::Key7,
    HotKey::Key8,
    HotKey::Key9,
    HotKey::Key0,
];

/// The palette entry selected this frame: the entry of the first key of
/// `HOTKEYS` that was pressed (`pressed[i]` is whether `HOTKEYS[i]` was).
pub fn hotkey_to_catalog_index(pressed: &[bool; 10]) -> (r: Option<usize>)
    ensures
        (match r {
            Some(i) => i < 10 && pressed@[i as int] && forall|k: int| 0 <= k < i ==> !pressed@[k],
            None => forall|k: int| 0 <= k < 10 ==> !pressed@[k],
        }),
{
    let mut i: usize = 0;
    while i < 10
        invariant
            i <= 10,
            forall|k: int| 0 <= k < i ==> !pressed@[k],
        decreases 10 - i,
    {
        if pressed[i] {
            return keycode_to_catalog_index(HOTKEYS[i]);
        }
        i = i + 1;
    }
    None
}

/// The contents of a fresh ROM from the palette: byte `i` holds `i`.
pub fn default_rom_bytes() -> (r: [u8; 256])
    ensures
        forall|i: int| 0 <= i < 256 ==> r@[i] == i,
{
    let mut rom = [0u8; 256];
    let mut i: usize = 0;
    while i < 256
        invariant
            i <= 256,
            rom@.len() == 256,
            forall|k: int| 0 <= k < i ==> rom@[k] == k,
        decreases 256 - i,
    {
        rom[i] = i as u8;
        i = i + 1;
    }
    rom
}

/// Which of this frame's mouse events the palette has used up.
#[derive(Clone, Copy, Debug, PartialEq, Eq)]
pub struct UiInputResult {
    pub consume_world_left_click: bool,
    pub consume_world_left_release: bool,
    pub pointer_over_menu: bool,
}

impl Default for UiInputResult {
    fn default() -> (r: UiInputResult)
        ensures
            !r.consume_world_left_click,
            !r.consume_world_left_release,
            !r.pointer_over_menu,
    {
        UiInputResult {
            consume_world_left_click: false,
            consume_world_left_release: false,
            pointer_over_menu: false,
        }
    }
}

/// Whether the window is fullscreen.
pub struct FullscreenState(pub bool);

impl FullscreenState {
    /// One update: pressing the fullscreen key flips the state, and the new
    /// state is returned to be applied to the window.
    pub fn update(&mut self, toggle_pressed: bool) -> (apply: Option<bool>)
        ensures
            toggle_pressed ==> final(self).0 == !old(self).0 && apply == Some(final(self).0),
            !toggle_pressed ==> final(self).0 == old(self).0 && apply is None,
    {
        if toggle_pressed {
            self.0 = !self.0;
            Some(self.0)
        } else {
            None
        }
    }
}

impl Default for FullscreenState {
    fn default() -> (r: FullscreenState)
        ensures
            !r.0,
    {
        FullscreenState(false)
    }
}

/// A chip made for a palette entry, before it is put into the world.
pub enum TemplateChip {
    Cpu(CPU),
    Rom(ROM),
    TieHigh(TieHigh),
    Button(Button),
    Switches(Switches),
    NumericDisplay(NumericDisplay),
    Clock(Clock),
    Counter8b(Counter8b),
    Led(Led),
    Nand(Nand),
}

/// The palette entry a made chip belongs to.
pub open spec fn template_of(chip: TemplateChip) -> ChipTemplate {
    match chip {
        TemplateChip::Cpu(_) => ChipTemplate::Cpu,
        TemplateChip::Rom(_) => ChipTemplate::Rom,
        TemplateChip::TieHigh(_) => ChipTemplate::TieHigh,
        TemplateChip::Button(_) => ChipTemplate::Button,
        TemplateChip::Switches(_) => ChipTemplate::Switches,
        TemplateChip::NumericDisplay(_) => ChipTemplate::NumericDisplay,
        TemplateChip::Clock(_) => ChipTemplate::Clock,
        TemplateChip::Counter8b(_) => ChipTemplate::Counter8b,
        TemplateChip::Led(_) => ChipTemplate::Led,
        TemplateChip::Nand(_) => ChipTemplate::Nand,
    }
}

/// The starting state of each chip placed from the palette: a CPU at address
/// 0, a ROM whose byte `i` is `i`, a bank of eight switches, a clock that
/// toggles every 30 updates, a counter at 0 and two NAND gates.
pub open spec fn fresh_from_palette(chip: TemplateChip) -> bool {
    match chip {
        TemplateChip::Cpu(c) => c.pc() == 0 && c.pending() == Seq::<u8>::empty(),
        TemplateChip::Rom(m) => m.contents().len() == 256 && forall|i: int|
            0 <= i < 256 ==> m.contents()[i] == i,
        TemplateChip::Switches(s) => s.switch_count() == 8,
        TemplateChip::Clock(c) => c.tick_count() == 0 && c.interval_length() == 30,
        TemplateChip::Counter8b(c) => c.value() == 0,
        TemplateChip::Nand(n) => n.gate_count() == 2,
        _ => true,
    }
}

/// How many switches a bank placed from the palette has.
pub const PALETTE_SWITCHES: usize = 8;

/// How many updates a clock placed from the palette waits between toggles.
pub const PALETTE_CLOCK_INTERVAL: usize = 30;

/// How many gates a NAND chip placed from the palette has.
pub const PALETTE_NAND_GATES: usize = 2;

impl ChipTemplate {
    /// The chip that placing this palette entry puts into the world.
    pub fn build(self) -> (r: TemplateChip)
        ensures
            template_of(r) == self,
            fresh_from_palette(r),
            template_size(self) == built_layout_size(r),
    {
        match self {
            ChipTemplate::Cpu => TemplateChip::Cpu(CPU::new()),
            ChipTemplate::Rom => {
                let bytes = default_rom_bytes();
                proof {
                    lemma_rom_from_contents(bytes);
                }
                TemplateChip::Rom(ROM::from(bytes))
            },
            ChipTemplate::TieHigh => TemplateChip::TieHigh(TieHigh),
            ChipTemplate::Button => TemplateChip::Button(Button),
            ChipTemplate::Switches => TemplateChip::Switches(Switches::new(PALETTE_SWITCHES)),
            ChipTemplate::NumericDisplay => TemplateChip::NumericDisplay(NumericDisplay),
            ChipTemplate::Clock => TemplateChip::Clock(Clock::new(PALETTE_CLOCK_INTERVAL)),
            ChipTemplate::Counter8b => TemplateChip::Counter8b(Counter8b::new()),
            ChipTemplate::Led => TemplateChip::Led(Led),
            ChipTemplate::Nand => TemplateChip::Nand(Nand::new(PALETTE_NAND_GATES)),
        }
    }
}

/// The width and height in tiles of the layout that a made chip sets up.
pub open spec fn built_layout_size(chip: TemplateChip) -> (u32, u32) {
    match chip {
        TemplateChip::Cpu(c) => c.layout_size(),
        TemplateChip::Rom(c) => c.layout_size(),
        TemplateChip::TieHigh(c) => c.layout_size(),
        TemplateChip::Button(c) => c.layout_size(),
        TemplateChip::Switches(c) => c.layout_size(),
        TemplateChip::NumericDisplay(c) => c.layout_size(),
        TemplateChip::Clock(c) => c.layout_size(),
        TemplateChip::Counter8b(c) => c.layout_size(),
        TemplateChip::Led(c) => c.layout_size(),
        TemplateChip::Nand(c) => c.layout_size(),
    }
}

/// The size that the palette gives an entry is the size of the layout that
/// the chip it builds sets up: for every chip as `build` makes it,
/// `template_size` of its entry is its layout's size.
pub proof fn lemma_palette_size_is_layout_size(chip: TemplateChip)
    requires
        fresh_from_palette(chip),
    ensures
        template_size(template_of(chip)) == built_layout_size(chip),
{
}

/// What the palette reads of one frame's input.
#[derive(Clone, Copy, Debug, PartialEq, Eq)]
pub struct PlacementInput {
    /// The palette entry chosen before this frame.
    pub selected: Option<ChipTemplate>,
    /// The palette entry whose hotkey was pressed this frame.
    pub hotkey: Option<usize>,
    /// Escape or the right mouse button was pressed.
    pub cancel: bool,
    /// The pointer is over the palette panel.
    pub pointer_over_menu: bool,
    /// The palette entry under the pointer.
    pub hovered: Option<usize>,
    pub left_pressed: bool,
    pub left_released: bool,
    /// The key that keeps an entry chosen after a chip is placed is held.
    pub keep_placing: bool,
}

/// What the palette decides for one frame.
#[derive(Clone, Copy, Debug, PartialEq, Eq)]
pub struct PlacementStep {
    /// The palette entry chosen from now on.
    pub selected: Option<ChipTemplate>,
    /// A chip of this kind is to be placed under the pointer.
    pub place: Option<ChipTemplate>,
    pub result: UiInputResult,
}

/// The entry chosen once the keys of the frame are taken into account: a
/// hotkey chooses its entry, and cancelling clears the choice.
pub open spec fn chosen_by_keys(input: PlacementInput) -> Option<ChipTemplate> {
    if input.cancel {
        None
    } else if input.hotkey is Some && input.hotkey->0 < 10 {
        Some(CHIP_CATALOG@[input.hotkey->0 as int])
    } else {
        input.selected
    }
}

/// A hotkey chooses its own entry whatever was chosen before, unless the
/// frame cancels: two frames that differ only in the entry chosen before, with
/// hotkey `i` of the palette pressed and no cancel, both choose entry `i`.
pub proof fn lemma_hotkey_chooses_its_entry(a: PlacementInput, b: PlacementInput, i: usize)
    requires
        i < 10,
        a.hotkey == Some(i),
        !a.cancel,
        b == (PlacementInput { selected: b.selected, ..a }),
    ensures
        chosen_by_keys(a) == Some(CHIP_CATALOG@[i as int]),
        chosen_by_keys(b) == chosen_by_keys(a),
{
}

/// Cancelling clears the choice, whatever hotkey is pressed in the same frame.
pub proof fn lemma_cancel_clears_choice(input: PlacementInput)
    requires
        input.cancel,
    ensures
        chosen_by_keys(input) is None,
{
}

/// Without a hotkey or a cancel, the choice carries over unchanged.
pub proof fn lemma_no_key_keeps_choice(input: PlacementInput)
    requires
        input.hotkey is None,
        !input.cancel,
    ensures
        chosen_by_keys(input) == input.selected,
{
}

/// One frame of the palette. A left click over the panel chooses the entry
/// under the pointer; a left click elsewhere with an entry chosen places that
/// chip and, unless the keep-placing key is held, clears the choice. Clicks and
/// releases that the palette uses are reported so that the world ignores them.
pub fn placement_step(input: PlacementInput) -> (r: PlacementStep)
    requires
        input.left_pressed && input.pointer_over_menu && input.hovered is Some ==> input.hovered->0
            < 10,
    ensures
        r.result.pointer_over_menu == input.pointer_over_menu,
        r.result.consume_world_left_release == (input.pointer_over_menu && input.left_released),
        r.result.consume_world_left_click == (input.left_pressed && (input.pointer_over_menu
            || chosen_by_keys(input) is Some)),
        r.place == if input.left_pressed && !input.pointer_over_menu {
            chosen_by_keys(input)
        } else {
            None
        },
        r.selected == if input.left_pressed && input.pointer_over_menu && input.hovered is Some {
            Some(CHIP_CATALOG@[input.hovered->0 as int])
        } else if r.place is Some && !input.keep_placing {
            None
        } else {
            chosen_by_keys(input)
        },
{
    let mut selected = input.selected;
    if let Some(index) = input.hotkey {
        if index < CHIP_CATALOG.len() {
            selected = Some(CHIP_CATALOG[index]);
        }
    }
    if input.cancel {
        selected = None;
    }
    let mut result = UiInputResult {
        consume_world_left_click: false,
        consume_world_left_release: false,
        pointer_over_menu: input.pointer_over_menu,
    };
    if input.pointer_over_menu && input.left_released {
        result.consume_world_left_release = true;
    }
    let mut place = None;
    if input.left_pressed {
        if input.pointer_over_menu {
            result.consume_world_left_click = true;
            if let Some(index) = input.hovered {
                selected = Some(CHIP_CATALOG[index]);
            }
        } else if let Some(template) = selected {
            result.consume_world_left_click = true;
            place = Some(template);
            if !input.keep_placing {
                selected = None;
            }
        }
    }
    PlacementStep { selected, place, result }
}

/// How a palette entry is drawn.
#[derive(Clone, Copy, Debug, PartialEq, Eq, Structural)]
pub enum ItemLook {
    Plain,
    Hovered,
    Selected,
}

/// The look of palette entry `index`: the chosen entry stands out most, then
/// the one under the pointer.
pub fn menu_item_look(index: usize, hovered: Option<usize>, selected: Option<ChipTemplate>) -> (r: ItemLook)
    requires
        index < 10,
    ensures
        r == if selected == Some(CHIP_CATALOG@[index as int]) {
            ItemLook::Selected
        } else if hovered == Some(index) {
            ItemLook::Hovered
        } else {
            ItemLook::Plain
        },
{
    let template = CHIP_CATALOG[index];
    let mut look = ItemLook::Plain;
    if hovered == Some(index) {
        look = ItemLook::Hovered;
    }
    if let Some(chosen) = selected {
        if chosen == template {
            look = ItemLook::Selected;
        }
    }
    look
}

} // verus!
