//! The behaviour of the simple chips: what each computes from its input pins
//! on an update, and the state it keeps between updates.

use vstd::prelude::*;

use crate::bits::{AsBits, bit_of, bits_to_nat, lemma_byte_bits_roundtrip};
use crate::ids::ChipId;
use crate::selection::Selection;
use crate::layout::{
    Pin, PinDef, PinLayout, Side, labelled, layout_pins, numbered, numbered_pin, numbered_run,
    on_outline, pins_view, push_numbered_run, well_placed,
};
use crate::text::{
    CharClass, char_in_class, chars_of, digit_of, digits_value, digits_value_capped, in_class, lemma_run_end,
    lemma_run_end_within, run_end, scan_run, string_from_chars,
};

verus! {

/// A chip whose single output is always high.
pub struct TieHigh;

/// Toggles its two outputs (`CLK` and its complement `CLKB`) every `interval` updates.
pub struct Clock {
    current_tick: usize,
    interval: usize,
}

impl Clock {
    pub closed spec fn tick_count(&self) -> usize {
        self.current_tick
    }

    pub closed spec fn interval_length(&self) -> usize {
        self.interval
    }

    pub fn new(interval: usize) -> (r: Clock)
        ensures
            r.tick_count() == 0,
            r.interval_length() == interval,
    {
        Clock { current_tick: 0, interval }
    }

    /// Counts one update; returns whether the outputs toggle on it, which they
    /// do when the count is a multiple of the interval (never, for interval 0).
    pub fn update(&mut self) -> (toggle: bool)
        requires
            old(self).tick_count() < usize::MAX,
        ensures
            final(self).tick_count() == old(self).tick_count() + 1,
            final(self).interval_length() == old(self).interval_length(),
            toggle == if old(self).interval_length() == 0 {
                final(self).tick_count() == 0
            } else {
                final(self).tick_count() % old(self).interval_length() == 0
            },
    {
        self.current_tick = self.current_tick + 1;
        if self.interval == 0 {
            self.current_tick == 0
        } else {
            self.current_tick % self.interval == 0
        }
    }
}

/// `gates` independent NAND gates: inputs `IN(2i)` and `IN(2i+1)`, output `OUT(i)`.
pub struct Nand {
    gates: usize,
}

impl Nand {
    pub closed spec fn gate_count(&self) -> usize {
        self.gates
    }

    pub fn new(gates: usize) -> (r: Nand)
        ensures
            r.gate_count() == gates,
    {
        Nand { gates }
    }

    /// Computes the outputs from the input levels, two inputs per gate.
    pub fn update(&self, inputs: &[bool]) -> (outputs: Vec<bool>)
        requires
            inputs@.len() == 2 * self.gate_count(),
        ensures
            outputs@.len() == self.gate_count(),
            forall|i: int|
                0 <= i < self.gate_count() ==> outputs@[i] == !(inputs@[2 * i] && inputs@[2 * i
                    + 1]),
    {
        let mut outputs: Vec<bool> = Vec::new();
        let mut i: usize = 0;
        while i < self.gates
            invariant
                i <= self.gates,
                inputs@.len() == 2 * self.gates,
                inputs.len() == 2 * self.gates,
                outputs@.len() == i,
                forall|k: int| 0 <= k < i ==> outputs@[k] == !(inputs@[2 * k] && inputs@[2 * k + 1]),
            decreases self.gates - i,
        {
            let a = inputs[2 * i];
            let b = inputs[2 * i + 1];
            outputs.push(!(a && b));
            i = i + 1;
        }
        outputs
    }
}

/// An 8-bit counter that counts falling edges of its clock input.
pub struct Counter8b {
    count: u8,
}

impl Counter8b {
    pub closed spec fn value(&self) -> u8 {
        self.count
    }

    pub fn new() -> (r: Counter8b)
        ensures
            r.value() == 0,
    {
        Counter8b { count: 0 }
    }

    /// On a falling clock edge the count advances (wrapping at 256) and the
    /// outputs `C0`..`C7` show its bits; otherwise nothing changes.
    pub fn update(&mut self, clock_falling: bool) -> (outputs: Option<[bool; 8]>)
        ensures
            clock_falling ==> final(self).value() == (old(self).value() + 1) % 256 && (outputs matches Some(
                bits,
            ) && forall|i: int| 0 <= i < 8 ==> bits@[i] == bit_of(final(self).value() as nat, i as nat)),
            !clock_falling ==> final(self).value() == old(self).value() && outputs is None,
    {
        if !clock_falling {
            return None;
        }
        self.count = self.count.wrapping_add(1);
        Some(self.count.as_bits())
    }
}

impl Default for Counter8b {
    fn default() -> (r: Counter8b)
        ensures
            r.value() == 0,
    {
        Counter8b::new()
    }
}

/// A lamp with one input.
pub struct Led;

/// Shows the number on its eight inputs.
pub struct NumericDisplay;

/// The levels read as bits, least significant first: a high input is a one, a
/// low or unconnected input a zero.
pub open spec fn high_levels(levels: Seq<Option<bool>>) -> Seq<bool> {
    levels.map_values(|l: Option<bool>| l == Some(true))
}

impl NumericDisplay {
    /// The number shown for the levels of the inputs, input `i` giving bit
    /// `i`; `None` stands for an input on no wire.
    pub fn shown_number(levels: &[Option<bool>]) -> (r: u8)
        requires
            levels@.len() <= 8,
        ensures
            r as nat == bits_to_nat(high_levels(levels@)),
    {
        let mut acc: u8 = 0;
        let mut i: usize = levels.len();
        let ghost n = levels@.len();
        proof {
            vstd::arithmetic::power2::lemma2_to64();
        }
        while i > 0
            invariant
                i <= n,
                n == levels@.len(),
                n <= 8,
                acc as nat == bits_to_nat(high_levels(levels@).subrange(i as int, n as int)),
                bits_to_nat(high_levels(levels@).subrange(i as int, n as int))
                    < vstd::arithmetic::power2::pow2((n - i) as nat),
            decreases i,
        {
            i = i - 1;
            proof {
                let tail = high_levels(levels@).subrange(i as int, n as int);
                assert(tail.drop_first() =~= high_levels(levels@).subrange(i + 1, n as int));
                vstd::arithmetic::power2::lemma_pow2_unfold((n - i) as nat);
                vstd::arithmetic::power2::lemma2_to64();
                if n - i < 8 {
                    vstd::arithmetic::power2::lemma_pow2_strictly_increases((n - i) as nat, 8);
                }
            }
            let high: u8 = match levels[i] {
                Some(true) => 1,
                _ => 0,
            };
            acc = acc * 2 + high;
        }
        assert(high_levels(levels@).subrange(0, n as int) =~= high_levels(levels@));
        acc
    }
}

/// A display whose inputs carry the eight bits of a byte, least significant
/// first (as a counter's outputs do), shows that byte.
pub proof fn lemma_display_shows_byte(v: u8, bits: [bool; 8])
    requires
        forall|i: int| 0 <= i < 8 ==> bits@[i] == bit_of(v as nat, i as nat),
    ensures
        bits_to_nat(high_levels(bits@.map_values(|b: bool| Some(b)))) == v,
{
    assert(high_levels(bits@.map_values(|b: bool| Some(b))) =~= bits@);
    lemma_byte_bits_roundtrip(v, bits);
}

/// Shows the chip and its number.
#[derive(PartialEq, Eq, Hash, Debug, Clone, Copy)]
pub struct NumericDisplayObj(pub ChipId);

impl From<ChipId> for NumericDisplayObj {
    fn from(value: ChipId) -> NumericDisplayObj {
        NumericDisplayObj(value)
    }
}

impl vstd::std_specs::convert::FromSpecImpl<ChipId> for NumericDisplayObj {
    open spec fn obeys_from_spec() -> bool {
        true
    }

    open spec fn from_spec(v: ChipId) -> NumericDisplayObj {
        NumericDisplayObj(v)
    }
}

/// A push button with one output.
pub struct Button;

/// Shows a button chip; `state` records whether it is held down.
#[derive(Hash, Debug, Clone, Copy, PartialEq, Eq)]
pub struct ButtonObj {
    pub chip: ChipId,
    pub state: bool,
}

impl From<ChipId> for ButtonObj {
    fn from(value: ChipId) -> ButtonObj {
        ButtonObj { chip: value, state: false }
    }
}

impl vstd::std_specs::convert::FromSpecImpl<ChipId> for ButtonObj {
    open spec fn obeys_from_spec() -> bool {
        true
    }

    open spec fn from_spec(v: ChipId) -> ButtonObj {
        ButtonObj { chip: v, state: false }
    }
}

/// A bank of `switches` toggle switches, one output each.
pub struct Switches {
    switches: usize,
}

impl Switches {
    pub closed spec fn switch_count(&self) -> usize {
        self.switches
    }

    pub fn new(switches: usize) -> (r: Switches)
        ensures
            r.switch_count() == switches,
    {
        Switches { switches }
    }
}

/// Shows a switch bank: the chip and how many switches it has.
#[derive(Hash, Debug, Clone, Copy, PartialEq, Eq)]
pub struct SwitchChip {
    pub chip: ChipId,
    pub switches: usize,
}

impl SwitchChip {
    pub fn new(chip: ChipId, switches: usize) -> (r: SwitchChip)
        ensures
            r.chip == chip,
            r.switches == switches,
    {
        SwitchChip { chip, switches }
    }
}

/// 256 bytes of read-only memory, addressed by eight address pins.
pub struct ROM {
    content: [u8; 256],
}

impl ROM {
    pub closed spec fn contents(&self) -> Seq<u8> {
        self.content@
    }

    /// A ROM holds 256 bytes.
    pub proof fn lemma_contents_len(&self)
        ensures
            self.contents().len() == 256,
    {
    }

    /// Overwrites the byte at `offset`.
    pub fn set(&mut self, offset: usize, byte: u8)
        requires
            offset < 256,
        ensures
            final(self).contents() == old(self).contents().update(offset as int, byte),
    {
        self.content[offset] = byte;
    }

    /// The byte at `address`.
    pub fn get(&self, address: u8) -> (r: u8)
        ensures
            r == self.contents()[address as int],
    {
        self.content[address as usize]
    }

    /// One update: when enabled and on a falling clock edge, the byte at
    /// `address` is put on the data pins; otherwise the data pins are left alone.
    pub fn update(&self, enabled: bool, clock_falling: bool, address: u8) -> (data: Option<u8>)
        ensures
            data == if enabled && clock_falling {
                Some(self.contents()[address as int])
            } else {
                None
            },
    {
        if !enabled {
            return None;
        }
        if clock_falling {
            Some(self.content[address as usize])
        } else {
            None
        }
    }
}

impl ROM {
    /// Takes over the bytes edited in the ROM's editor.
    pub fn load_edits(&mut self, edits: &ROMUi)
        ensures
            final(self).contents() == edits.edited_bytes(),
    {
        self.content = edits.bytes();
    }
}

impl ROMObj {
    /// Clicking a ROM that is already the selected chip opens its editor.
    pub fn opens_editor(&self, selection: &Selection) -> (r: bool)
        ensures
            r == (*selection == Selection::Chip(self.0)),
    {
        match selection {
            Selection::Chip(id) => id.0 == self.0.0,
            _ => false,
        }
    }
}

/// Reading an address after writing a byte there gives the byte; the other
/// addresses keep what they held.
pub proof fn lemma_rom_read_after_write(before: Seq<u8>, offset: int, byte: u8, address: int)
    requires
        before.len() == 256,
        0 <= offset < 256,
        0 <= address < 256,
    ensures
        before.update(offset, byte)[address] == if address == offset {
            byte
        } else {
            before[address]
        },
{
}

impl From<[u8; 256]> for ROM {
    fn from(value: [u8; 256]) -> ROM {
        ROM { content: value }
    }
}

impl vstd::std_specs::convert::FromSpecImpl<[u8; 256]> for ROM {
    open spec fn obeys_from_spec() -> bool {
        true
    }

    closed spec fn from_spec(v: [u8; 256]) -> ROM {
        ROM { content: v }
    }
}

/// A ROM made from an array holds exactly the array's bytes.
pub proof fn lemma_rom_from_contents(v: [u8; 256])
    ensures
        <ROM as vstd::std_specs::convert::FromSpec<[u8; 256]>>::from_spec(v).contents() == v@,
{
}

/// Shows a ROM chip.
#[derive(Hash, Debug, Clone, Copy, PartialEq, Eq)]
pub struct ROMObj(pub ChipId);

impl From<ChipId> for ROMObj {
    fn from(value: ChipId) -> ROMObj {
        ROMObj(value)
    }
}

impl vstd::std_specs::convert::FromSpecImpl<ChipId> for ROMObj {
    open spec fn obeys_from_spec() -> bool {
        true
    }

    open spec fn from_spec(v: ChipId) -> ROMObj {
        ROMObj(v)
    }
}

/// Shows a scripted chip.
#[derive(Hash, Debug, Clone, Copy, PartialEq, Eq)]
pub struct ProgrammableChipObj(pub ChipId);

impl From<ChipId> for ProgrammableChipObj {
    fn from(value: ChipId) -> ProgrammableChipObj {
        ProgrammableChipObj(value)
    }
}

impl vstd::std_specs::convert::FromSpecImpl<ChipId> for ProgrammableChipObj {
    open spec fn obeys_from_spec() -> bool {
        true
    }

    open spec fn from_spec(v: ChipId) -> ProgrammableChipObj {
        ProgrammableChipObj(v)
    }
}

pub const HEX_DIGITS: [char; 16] = [
    '0', '1', '2', '3', '4', '5', '6', '7', '8', '9', 'a', 'b', 'c', 'd', 'e', 'f',
];

/// A byte as two lowercase hex digits.
pub open spec fn hex2(b: u8) -> Seq<char> {
    seq![HEX_DIGITS@[b as int / 16], HEX_DIGITS@[b as int % 16]]
}

fn format_hex2(b: u8) -> (r: String)
    ensures
        r@ == hex2(b),
{
    let hi = HEX_DIGITS[(b / 16) as usize];
    let lo = HEX_DIGITS[(b % 16) as usize];
    let cs = [hi, lo];
    assert(cs@ =~= hex2(b));
    string_from_chars(&cs)
}

/// The value that `u8::from_str_radix(t, 16)` reads: an optional `+`, then at
/// least one hex digit, the whole at most 255.
pub open spec fn hex_byte_value(t: Seq<char>) -> Option<u8> {
    let digits = if t.len() > 0 && t[0] == '+' {
        t.drop_first()
    } else {
        t
    };
    if digits.len() > 0 && run_end(digits, 0, CharClass::Hex) == digits.len() && digits_value(
        digits,
        16,
    ) <= 255 {
        Some(digits_value(digits, 16) as u8)
    } else {
        None
    }
}

fn parse_hex_byte(t: &String) -> (r: Option<u8>)
    ensures
        r == hex_byte_value(t@),
{
    let all = chars_of(t.as_str());
    let start: usize = if all.len() > 0 && all[0] == '+' {
        1
    } else {
        0
    };
    let ghost digits = if t@.len() > 0 && t@[0] == '+' {
        t@.drop_first()
    } else {
        t@
    };
    proof {
        assert(all@.subrange(start as int, all@.len() as int) =~= digits);
    }
    if start == all.len() {
        return None;
    }
    let e = scan_run(&all, start, CharClass::Hex);
    proof {
        lemma_run_end_within(all@, start as int, start as int, CharClass::Hex);
        lemma_run_end(all@, start as int, CharClass::Hex);
    }
    if e != all.len() {
        return None;
    }
    proof {
        assert forall|k: int| start <= k < all@.len() implies digit_of(#[trigger] all@[k]) < 16 by {
            assert(in_class(CharClass::Hex, all@[k]));
        }
    }
    let v = digits_value_capped(&all, start, all.len(), 16, 256);
    if v <= 255 {
        Some(v as u8)
    } else {
        None
    }
}

/// Each hex digit has its usual value: `0` to `9` are zero to nine, and `a`
/// to `f` as well as `A` to `F` are ten to fifteen; the digits of the display
/// table `HEX_DIGITS` read back as their positions in it.
pub proof fn lemma_hex_digit_values(k: int)
    ensures
        0 <= k < 10 ==> digit_of("0123456789"@[k]) == k,
        0 <= k < 6 ==> digit_of("abcdef"@[k]) == 10 + k,
        0 <= k < 6 ==> digit_of("ABCDEF"@[k]) == 10 + k,
        0 <= k < 16 ==> digit_of(HEX_DIGITS@[k]) == k && in_class(CharClass::Hex, HEX_DIGITS@[k]),
{
    reveal_strlit("0123456789");
    reveal_strlit("abcdef");
    reveal_strlit("ABCDEF");
    if 0 <= k < 16 {
        assert(HEX_DIGITS@ =~= seq![
            '0', '1', '2', '3', '4', '5', '6', '7', '8', '9', 'a', 'b', 'c', 'd', 'e', 'f',
        ]);
    }
}

/// A byte shown in a ROM cell reads back as the same byte: the two-digit text
/// of `b` is a hex byte of value `b`.
pub proof fn lemma_hex_cell_round_trip(b: u8)
    ensures
        hex_byte_value(hex2(b)) == Some(b),
{
    let t = hex2(b);
    let hi = b as int / 16;
    let lo = b as int % 16;
    lemma_hex_digit_values(hi);
    lemma_hex_digit_values(lo);
    assert(t[0] == HEX_DIGITS@[hi]);
    assert(t[1] == HEX_DIGITS@[lo]);
    assert(run_end(t, 2, CharClass::Hex) == 2);
    assert(run_end(t, 1, CharClass::Hex) == 2);
    assert(run_end(t, 0, CharClass::Hex) == 2);
    assert(t.drop_last() =~= seq![t[0]]);
    assert(t.drop_last().drop_last() =~= Seq::<char>::empty());
    assert(digits_value(Seq::<char>::empty(), 16) == 0);
    assert(t.drop_last().last() == t[0]);
    assert(digits_value(t.drop_last(), 16) == digits_value(Seq::<char>::empty(), 16) * 16 + digit_of(t[0]));
    assert(digits_value(t.drop_last(), 16) == hi);
    assert(t.last() == t[1]);
    assert(digits_value(t, 16) == hi * 16 + lo);
}

/// The editing state of a ROM inspector: the bytes being edited and the text
/// of each of the 16 x 16 cells.
pub struct ROMUi {
    chip_id: ChipId,
    bytes: [u8; 256],
    text: Vec<Vec<String>>,
}

impl ROMUi {
    pub closed spec fn chip(&self) -> ChipId {
        self.chip_id
    }

    pub closed spec fn edited_bytes(&self) -> Seq<u8> {
        self.bytes@
    }

    /// The text of the cell in `row` and `column`.
    pub closed spec fn cell_text(&self, row: int, column: int) -> Seq<char> {
        self.text@[row]@[column]@
    }

    pub closed spec fn well_formed(&self) -> bool {
        &&& self.text@.len() == 16
        &&& forall|row: int| 0 <= row < 16 ==> (#[trigger] self.text@[row])@.len() == 16
    }

    /// Starts editing `rom`: the bytes are the ROM's, and the cell in row `x`,
    /// column `y` shows byte `16 * x + y` as two lowercase hex digits.
    pub fn new(chip_id: ChipId, rom: &ROM) -> (r: ROMUi)
        ensures
            r.well_formed(),
            r.chip() == chip_id,
            r.edited_bytes() == rom.contents(),
            forall|x: int, y: int|
                0 <= x < 16 && 0 <= y < 16 ==> #[trigger] r.cell_text(x, y) == hex2(
                    rom.contents()[x * 16 + y],
                ),
    {
        let mut text: Vec<Vec<String>> = Vec::new();
        let mut x: usize = 0;
        while x < 16
            invariant
                x <= 16,
                text@.len() == x,
                forall|i: int| 0 <= i < x ==> (#[trigger] text@[i])@.len() == 16,
                forall|i: int, j: int|
                    0 <= i < x && 0 <= j < 16 ==> #[trigger] text@[i]@[j]@ == hex2(
                        rom.content@[i * 16 + j],
                    ),
            decreases 16 - x,
        {
            let mut row: Vec<String> = Vec::new();
            let mut y: usize = 0;
            while y < 16
                invariant
                    x < 16,
                    y <= 16,
                    row@.len() == y,
                    forall|j: int| 0 <= j < y ==> #[trigger] row@[j]@ == hex2(rom.content@[x * 16 + j]),
                decreases 16 - y,
            {
                let index = x * 16 + y;
                row.push(format_hex2(rom.content[index]));
                y = y + 1;
            }
            text.push(row);
            x = x + 1;
        }
        ROMUi { chip_id, bytes: rom.content, text }
    }

    pub fn chip_id(&self) -> (r: ChipId)
        ensures
            r == self.chip(),
    {
        self.chip_id
    }

    pub fn bytes(&self) -> (r: [u8; 256])
        ensures
            r@ == self.edited_bytes(),
    {
        self.bytes
    }

    pub fn cell(&self, row: usize, column: usize) -> (r: &String)
        requires
            self.well_formed(),
            row < 16,
            column < 16,
        ensures
            r@ == self.cell_text(row as int, column as int),
    {
        &self.text[row][column]
    }

    /// Whether a cell that holds `cell_len` characters takes the typed
    /// character `c`: a cell takes hex digits, up to two.
    pub fn accepts_char(c: char, cell_len: usize) -> (r: bool)
        ensures
            r == (in_class(CharClass::Hex, c) && cell_len <= 1),
    {
        char_in_class(c, CharClass::Hex) && cell_len <= 1
    }

    /// Records that the cell in `row` and `column` now reads `text`; when the
    /// text is a hex byte, the byte at `16 * row + column` becomes its value.
    pub fn edit_cell(&mut self, row: usize, column: usize, text: String)
        requires
            old(self).well_formed(),
            row < 16,
            column < 16,
        ensures
            final(self).well_formed(),
            final(self).chip() == old(self).chip(),
            final(self).cell_text(row as int, column as int) == text@,
            forall|x: int, y: int|
                0 <= x < 16 && 0 <= y < 16 && (x != row || y != column)
                    ==> #[trigger] final(self).cell_text(x, y) == old(self).cell_text(x, y),
            final(self).edited_bytes() == match hex_byte_value(text@) {
                Some(b) => old(self).edited_bytes().update(row * 16 + column, b),
                None => old(self).edited_bytes(),
            },
    {
        let value = parse_hex_byte(&text);
        let ghost before = self.text@;
        let mut line = self.text.remove(row);
        let ghost old_line = line@;
        let _ = line.remove(column);
        line.insert(column, text);
        assert(line@ =~= old_line.update(column as int, line@[column as int]));
        self.text.insert(row, line);
        assert(self.text@ =~= before.update(row as int, line));
        if let Some(b) = value {
            self.bytes[row * 16 + column] = b;
        }
    }
}

/// An entry of a layout as plain values: a pin with a fixed label that starts low.
pub open spec fn plain_pin(pin: Pin, label: Seq<char>) -> (Pin, Option<Seq<char>>, bool) {
    (pin, Some(label), false)
}

impl TieHigh {
    /// The width and height in tiles of the layout that `setup` makes.
    pub open spec fn layout_size(&self) -> (u32, u32) {
        (1, 1)
    }

    /// A single tile with one output, `HIGH`, on its right, starting high.
    pub fn setup(&self) -> (r: PinLayout)
        ensures
            r.size == (1u32, 1u32),
            r.size == self.layout_size(),
            layout_pins(r) == seq![(Pin::Right(0), Some("HIGH"@), true)],
            well_placed(r.size, layout_pins(r)),
    {
        let pins = vec![(Pin::Right(0), PinDef::new_with_state("HIGH".to_owned(), true))];
        let r = PinLayout { size: (1, 1), pins };
        assert(layout_pins(r) =~= seq![(Pin::Right(0), Some("HIGH"@), true)]);
        r
    }
}

impl Led {
    /// The width and height in tiles of the layout that `setup` makes.
    pub open spec fn layout_size(&self) -> (u32, u32) {
        (1, 1)
    }

    /// A single tile with one input, `ON`, on its left.
    pub fn setup(&self) -> (r: PinLayout)
        ensures
            r.size == (1u32, 1u32),
            r.size == self.layout_size(),
            layout_pins(r) == seq![plain_pin(Pin::Left(0), "ON"@)],
            well_placed(r.size, layout_pins(r)),
    {
        let pins = vec![labelled(Pin::Left(0), "ON")];
        let r = PinLayout { size: (1, 1), pins };
        assert(layout_pins(r) =~= seq![plain_pin(Pin::Left(0), "ON"@)]);
        r
    }
}

impl Button {
    /// The width and height in tiles of the layout that `setup` makes.
    pub open spec fn layout_size(&self) -> (u32, u32) {
        (1, 1)
    }

    /// A single tile with one output, `OUT`, on its right.
    pub fn setup(&self) -> (r: PinLayout)
        ensures
            r.size == (1u32, 1u32),
            r.size == self.layout_size(),
            layout_pins(r) == seq![plain_pin(Pin::Right(0), "OUT"@)],
            well_placed(r.size, layout_pins(r)),
    {
        let pins = vec![labelled(Pin::Right(0), "OUT")];
        let r = PinLayout { size: (1, 1), pins };
        assert(layout_pins(r) =~= seq![plain_pin(Pin::Right(0), "OUT"@)]);
        r
    }
}

impl Clock {
    /// The width and height in tiles of the layout that `setup` makes.
    pub open spec fn layout_size(&self) -> (u32, u32) {
        (1, 2)
    }

    /// One tile wide and two high: `CLKB` on the right at the top, starting
    /// high, and `CLK` below it, starting low.
    pub fn setup(&self) -> (r: PinLayout)
        ensures
            r.size == (1u32, 2u32),
            r.size == self.layout_size(),
            layout_pins(r) == seq![
                (Pin::Right(0), Some("CLKB"@), true),
                (Pin::Right(1), Some("CLK"@), false),
            ],
            well_placed(r.size, layout_pins(r)),
    {
        let pins = vec![
            (Pin::Right(0), PinDef::new_with_state("CLKB".to_owned(), true)),
            (Pin::Right(1), PinDef::new_with_state("CLK".to_owned(), false)),
        ];
        let r = PinLayout { size: (1, 2), pins };
        assert(layout_pins(r) =~= seq![
            (Pin::Right(0), Some("CLKB"@), true),
            (Pin::Right(1), Some("CLK"@), false),
        ]);
        r
    }
}

impl Counter8b {
    /// The width and height in tiles of the layout that `setup` makes.
    pub open spec fn layout_size(&self) -> (u32, u32) {
        (2, 8)
    }

    /// Two tiles wide and eight high: the clock input `CLK` on the left, and
    /// the outputs `C0` to `C7` down the right.
    pub fn setup(&self) -> (r: PinLayout)
        ensures
            r.size == (2u32, 8u32),
            r.size == self.layout_size(),
            layout_pins(r) == seq![plain_pin(Pin::Left(4), "CLK"@)] + numbered_run(Side::Right, 0, "C"@, 8),
            well_placed(r.size, layout_pins(r)),
    {
        let mut pins = vec![labelled(Pin::Left(4), "CLK")];
        assert(pins_view(pins@) =~= seq![plain_pin(Pin::Left(4), "CLK"@)]);
        push_numbered_run(&mut pins, Side::Right, 0, "C", 8);
        PinLayout { size: (2, 8), pins }
    }
}

impl NumericDisplay {
    /// The width and height in tiles of the layout that `setup` makes.
    pub open spec fn layout_size(&self) -> (u32, u32) {
        (8, 4)
    }

    /// Eight tiles wide and four high, with the inputs `C0` to `C7` along the top.
    pub fn setup(&self) -> (r: PinLayout)
        ensures
            r.size == (8u32, 4u32),
            r.size == self.layout_size(),
            layout_pins(r) == numbered_run(Side::Top, 0, "C"@, 8),
            well_placed(r.size, layout_pins(r)),
    {
        let mut pins: Vec<(Pin, PinDef)> = Vec::new();
        assert(pins_view(pins@) =~= Seq::empty());
        push_numbered_run(&mut pins, Side::Top, 0, "C", 8);
        assert(pins_view(pins@) =~= numbered_run(Side::Top, 0, "C"@, 8));
        PinLayout { size: (8, 4), pins }
    }
}

impl Switches {
    /// The width and height in tiles of the layout that `setup` makes.
    pub open spec fn layout_size(&self) -> (u32, u32) {
        (4, self.switch_count() as u32)
    }

    /// Four tiles wide and as high as there are switches, with the outputs
    /// `S0`, `S1`, ... down the right.
    pub fn setup(&self) -> (r: PinLayout)
        ensures
            r.size == (4u32, self.switch_count() as u32),
            r.size == self.layout_size(),
            layout_pins(r) == numbered_run(Side::Right, 0, "S"@, self.switch_count() as nat),
            self.switch_count() <= u32::MAX ==> well_placed(r.size, layout_pins(r)),
    {
        let mut pins: Vec<(Pin, PinDef)> = Vec::new();
        assert(pins_view(pins@) =~= Seq::empty());
        push_numbered_run(&mut pins, Side::Right, 0, "S", self.switches);
        assert(pins_view(pins@) =~= numbered_run(Side::Right, 0, "S"@, self.switches as nat));
        PinLayout { size: (4, self.switches as u32), pins }
    }
}

/// The pins of `gates` NAND gates: gate `i` has the inputs `IN(2i)` and
/// `IN(2i+1)` on the left and the output `OUT(i)` on the right, level with its first input.
pub open spec fn nand_pins(gates: nat) -> Seq<(Pin, Option<Seq<char>>, bool)> {
    Seq::new(
        3 * gates,
        |k: int|
            {
                let i = k / 3;
                if k % 3 == 0 {
                    plain_pin(Pin::Left((2 * i) as usize), numbered("IN"@, (2 * i) as nat))
                } else if k % 3 == 1 {
                    plain_pin(Pin::Left((2 * i + 1) as usize), numbered("IN"@, (2 * i + 1) as nat))
                } else {
                    plain_pin(Pin::Right((2 * i) as usize), numbered("OUT"@, i as nat))
                }
            },
    )
}

impl Nand {
    /// The width and height in tiles of the layout that `setup` makes.
    pub open spec fn layout_size(&self) -> (u32, u32) {
        (2, (2 * self.gate_count()) as u32)
    }

    /// Two tiles wide and two per gate high, laid out as `nand_pins` says.
    pub fn setup(&self) -> (r: PinLayout)
        requires
            2 * self.gate_count() <= u32::MAX,
        ensures
            r.size == (2u32, (2 * self.gate_count()) as u32),
            r.size == self.layout_size(),
            layout_pins(r) == nand_pins(self.gate_count() as nat),
            well_placed(r.size, layout_pins(r)),
    {
        let mut pins: Vec<(Pin, PinDef)> = Vec::new();
        let mut i: usize = 0;
        while i < self.gates
            invariant
                i <= self.gates,
                2 * self.gates <= u32::MAX,
                pins_view(pins@) =~= nand_pins(i as nat),
            decreases self.gates - i,
        {
            let ghost before = pins@;
            pins.push(numbered_pin(Pin::Left(2 * i), "IN", 2 * i));
            pins.push(numbered_pin(Pin::Left(2 * i + 1), "IN", 2 * i + 1));
            pins.push(numbered_pin(Pin::Right(2 * i), "OUT", i));
            proof {
                assert(pins_view(pins@) =~= pins_view(before) + seq![
                    plain_pin(Pin::Left((2 * i) as usize), numbered("IN"@, (2 * i) as nat)),
                    plain_pin(Pin::Left((2 * i + 1) as usize), numbered("IN"@, (2 * i + 1) as nat)),
                    plain_pin(Pin::Right((2 * i) as usize), numbered("OUT"@, i as nat)),
                ]);
                assert(nand_pins((i + 1) as nat) =~= nand_pins(i as nat) + seq![
                    plain_pin(Pin::Left((2 * i) as usize), numbered("IN"@, (2 * i) as nat)),
                    plain_pin(Pin::Left((2 * i + 1) as usize), numbered("IN"@, (2 * i + 1) as nat)),
                    plain_pin(Pin::Right((2 * i) as usize), numbered("OUT"@, i as nat)),
                ]);
            }
            i = i + 1;
        }
        let r = PinLayout { size: (2, (2 * self.gates) as u32), pins };
        proof {
            let ps = layout_pins(r);
            assert forall|k: int| 0 <= k < ps.len() implies on_outline(#[trigger] ps[k].0, r.size) by {
                assert(k / 3 < self.gates);
            }
            assert forall|j: int, k: int| 0 <= j < k < ps.len() implies #[trigger] ps[j].0
                != #[trigger] ps[k].0 by {
                if j / 3 != k / 3 {
                    assert(j / 3 < k / 3);
                }
            }
        }
        r
    }
}

/// The ROM's pins: the data outputs `D0` to `D7` down the right below the
/// clock, the address inputs `A0` to `A7` down the left below the enable,
/// then `CE` at the top left and `CLK` at the top right.
pub open spec fn rom_pins() -> Seq<(Pin, Option<Seq<char>>, bool)> {
    numbered_run(Side::Right, 1, "D"@, 8) + numbered_run(Side::Left, 1, "A"@, 8) + seq![
        plain_pin(Pin::Left(0), "CE"@),
        plain_pin(Pin::Right(0), "CLK"@),
    ]
}

impl ROM {
    /// The width and height in tiles of the layout that `setup` makes.
    pub open spec fn layout_size(&self) -> (u32, u32) {
        (2, 9)
    }

    /// Two tiles wide and nine high, laid out as `rom_pins` says.
    pub fn setup(&self) -> (r: PinLayout)
        ensures
            r.size == (2u32, 9u32),
            r.size == self.layout_size(),
            layout_pins(r) == rom_pins(),
            well_placed(r.size, layout_pins(r)),
    {
        let mut pins: Vec<(Pin, PinDef)> = Vec::new();
        assert(pins_view(pins@) =~= Seq::empty());
        push_numbered_run(&mut pins, Side::Right, 1, "D", 8);
        push_numbered_run(&mut pins, Side::Left, 1, "A", 8);
        let ghost before = pins@;
        pins.push(labelled(Pin::Left(0), "CE"));
        pins.push(labelled(Pin::Right(0), "CLK"));
        assert(pins_view(pins@) =~= pins_view(before) + seq![
            plain_pin(Pin::Left(0), "CE"@),
            plain_pin(Pin::Right(0), "CLK"@),
        ]);
        assert(pins_view(pins@) =~= rom_pins());
        PinLayout { size: (2, 9), pins }
    }
}

} // verus!
