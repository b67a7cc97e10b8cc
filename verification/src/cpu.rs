//! The 8-bit CPU chip: on each rising clock edge it puts the low byte of its program counter
//! on the address bus and advances it; on each falling edge it reads a byte
//! from the data bus and, once the bytes read form an instruction, runs it.

use vstd::prelude::*;

use crate::assembler::{OP_JUMP, OP_MOVE};
use crate::bits::{AsBits, bits_of, bits_to_nat, byte_from_bits};
use crate::layout::{Pin, PinDef, PinLayout, labelled, layout_pins, numbered, numbered_pin, pins_view, well_placed};

verus! {

/// Why the bytes read so far cannot be an instruction.
#[derive(Debug)]
pub enum DecodeError {
    Other(String),
}

/// An instruction as the CPU executes it.
#[derive(Debug, PartialEq, Eq, Clone, Copy)]
pub enum Instruction {
    Nop,
    Move(u8, u8),
    Jump(u16),
}

/// The instruction that `b` encodes, if `b` is exactly one instruction, with
/// the opcodes of the instruction set (`mov` is `01`, `jmp` is `02`):
/// `01 from to` moves, `02 lo hi` jumps to `lo + 256 * hi`.
pub open spec fn spec_instruction(b: Seq<u8>) -> Option<Instruction> {
    if b.len() == 3 && b[0] == OP_MOVE {
        Some(Instruction::Move(b[1], b[2]))
    } else if b.len() == 3 && b[0] == OP_JUMP {
        Some(Instruction::Jump((b[1] + 256 * b[2]) as u16))
    } else {
        None
    }
}

/// The decoder gives `mov` and `jmp` the opcodes that the assembler writes for
/// them. (Only the opcodes agree: the assembler writes each operand with an
/// addressing-mode byte, which this decoder does not read.)
pub proof fn lemma_opcodes_agree(a: u8, b: u8)
    ensures
        spec_instruction(seq![OP_MOVE, a, b]) == Some(Instruction::Move(a, b)),
        spec_instruction(seq![OP_JUMP, a, b]) == Some(Instruction::Jump((a + 256 * b) as u16)),
{
}

impl Instruction {
    pub fn try_parse(bytes: &[u8]) -> (r: Option<Instruction>)
        ensures
            r == spec_instruction(bytes@),
    {
        if bytes.len() == 3 && bytes[0] == OP_MOVE {
            Some(Instruction::Move(bytes[1], bytes[2]))
        } else if bytes.len() == 3 && bytes[0] == OP_JUMP {
            let lo = bytes[1];
            let hi = bytes[2];
            let v = u16::from(lo) | (u16::from(hi) << 8);
            assert(v == lo + 256 * hi) by (bit_vector)
                requires
                    v == (lo as u16) | ((hi as u16) << 8),
            ;
            Some(Instruction::Jump(v))
        } else {
            None
        }
    }

    /// Runs the instruction: a jump sets the program counter; a move is
    /// reported back to the caller, who shows it.
    pub fn run(self, cpu: &mut CPU) -> (action: CpuAction)
        ensures
            final(cpu).pending() == old(cpu).pending(),
            (match self {
                Instruction::Jump(to) => final(cpu).pc() == to && action == CpuAction::Idle,
                Instruction::Move(from, to) => final(cpu).pc() == old(cpu).pc() && action
                    == CpuAction::ReportMove(from, to),
                Instruction::Nop => final(cpu).pc() == old(cpu).pc() && action == CpuAction::Idle,
            }),
    {
        match self {
            Instruction::Nop => CpuAction::Idle,
            Instruction::Move(from, to) => CpuAction::ReportMove(from, to),
            Instruction::Jump(to) => {
                cpu.program_counter = to;
                CpuAction::Idle
            },
        }
    }
}

/// The bytes read from the data bus since the last complete instruction.
pub struct DecodeState {
    bytes: Vec<u8>,
}

impl View for DecodeState {
    type V = Seq<u8>;

    closed spec fn view(&self) -> Seq<u8> {
        self.bytes@
    }
}

/// What decoding the pending bytes `b` yields: an error once more than four
/// bytes are pending, else the instruction they form, if any.
pub open spec fn spec_decode(b: Seq<u8>) -> Result<Option<Instruction>, ()> {
    if b.len() > 4 {
        Err(())
    } else {
        Ok(spec_instruction(b))
    }
}

/// The decoder's result matches `spec`; its error says `invalid instruction`.
pub open spec fn decode_agrees(r: Result<Option<Instruction>, DecodeError>, spec: Result<Option<Instruction>, ()>) -> bool {
    match r {
        Ok(o) => spec == Ok::<Option<Instruction>, ()>(o),
        Err(DecodeError::Other(message)) => spec is Err && message@ == "invalid instruction"@,
    }
}

impl DecodeState {
    pub fn new() -> (r: DecodeState)
        ensures
            r@ == Seq::<u8>::empty(),
    {
        DecodeState { bytes: Vec::new() }
    }

    pub fn reset(&mut self)
        ensures
            final(self)@ == Seq::<u8>::empty(),
    {
        self.bytes.clear();
    }

    /// Reads the byte on the data bus (wire `i` carries bit `i`), adds it to
    /// the pending bytes and decodes them; the pending bytes are dropped once
    /// they form an instruction.
    pub fn try_decode(&mut self, data: &[bool; 8]) -> (r: Result<Option<Instruction>, DecodeError>)
        ensures
            decode_agrees(r, spec_decode(old(self)@.push(bits_to_nat(data@) as u8))),
            final(self)@ == (if r matches Ok(Some(_)) {
                Seq::<u8>::empty()
            } else {
                old(self)@.push(bits_to_nat(data@) as u8)
            }),
    {
        let byte = byte_from_bits(data);
        self.bytes.push(byte);
        let result = self.try_parse_instruction();
        if let Ok(Some(_)) = &result {
            self.bytes.clear();
        }
        result
    }

    pub fn try_parse_instruction(&self) -> (r: Result<Option<Instruction>, DecodeError>)
        ensures
            decode_agrees(r, spec_decode(self@)),
    {
        if self.bytes.len() > 4 {
            Err(DecodeError::Other("invalid instruction".to_owned()))
        } else {
            Ok(Instruction::try_parse(self.bytes.as_slice()))
        }
    }
}

/// The CPU's view of its pins during one update.
pub struct CpuInputs {
    /// The chip-enable wire is high.
    pub enabled: bool,
    /// The interrupt-request wire has just risen.
    pub interrupt_rising: bool,
    /// The clock wire has just risen.
    pub clock_rising: bool,
    /// The clock wire has just fallen.
    pub clock_falling: bool,
    /// The data bus, wire `i` carrying bit `i`.
    pub data: [bool; 8],
}

/// What the CPU does to the world after an update.
#[derive(Debug, PartialEq, Eq, Clone, Copy)]
pub enum CpuAction {
    Idle,
    /// Put these levels on the eight-wire address bus, wire `i` getting bit `i`.
    DriveAddress([bool; 8]),
    /// A move was executed between these two operands.
    ReportMove(u8, u8),
}

/// Simple 8-bit CPU with 8-bit addresses: its address bus carries the low
/// byte of the program counter.
pub struct CPU {
    program_counter: u16,
    state: DecodeState,
}

impl CPU {
    pub closed spec fn pc(&self) -> u16 {
        self.program_counter
    }

    pub closed spec fn pending(&self) -> Seq<u8> {
        self.state@
    }

    /// A CPU at address 0 with nothing pending.
    pub fn new() -> (r: CPU)
        ensures
            r.pc() == 0,
            r.pending() == Seq::<u8>::empty(),
    {
        CPU { program_counter: 0, state: DecodeState::new() }
    }

    pub fn program_counter(&self) -> (r: u16)
        ensures
            r == self.pc(),
    {
        self.program_counter
    }

    /// One update of the chip.
    ///
    /// Disabled, it does nothing. On a rising clock it drives the low byte of
    /// the program counter onto the address bus and advances the counter,
    /// wrapping at 2^16. On a
    /// falling clock it reads the data bus and, if the pending bytes now form
    /// an instruction, runs it; bytes that cannot form one are treated as a
    /// no-op and stay pending.
    pub fn update(&mut self, inputs: &CpuInputs) -> (action: CpuAction)
        requires
            !(inputs.enabled && inputs.interrupt_rising),
        ensures
            !inputs.enabled ==> final(self).pc() == old(self).pc() && final(self).pending()
                == old(self).pending() && action == CpuAction::Idle,
            inputs.enabled && inputs.clock_rising ==> (action matches CpuAction::DriveAddress(bits)
                && bits@ == bits_of((old(self).pc() % 256) as nat, 8)) && final(self).pc() == (old(
            self).pc() + 1) % 0x10000 && final(self).pending() == old(self).pending(),
            inputs.enabled && !inputs.clock_rising && !inputs.clock_falling ==> final(self).pc()
                == old(self).pc() && final(self).pending() == old(self).pending() && action
                == CpuAction::Idle,
            inputs.enabled && !inputs.clock_rising && inputs.clock_falling ==> ({
                let pushed = old(self).pending().push(bits_to_nat(inputs.data@) as u8);
                match spec_decode(pushed) {
                    Ok(Some(instruction)) => final(self).pending() == Seq::<u8>::empty() && match instruction {
                        Instruction::Jump(to) => final(self).pc() == to && action == CpuAction::Idle,
                        Instruction::Move(from, to) => final(self).pc() == old(self).pc()
                            && action == CpuAction::ReportMove(from, to),
                        Instruction::Nop => final(self).pc() == old(self).pc() && action
                            == CpuAction::Idle,
                    },
                    _ => final(self).pending() == pushed && final(self).pc() == old(self).pc()
                        && action == CpuAction::Idle,
                }
            }),
    {
        if !inputs.enabled {
            return CpuAction::Idle;
        }
        if inputs.clock_rising {
            let pc = self.program_counter;
            let low = pc as u8;
            assert(low == pc % 256) by (bit_vector)
                requires
                    low == pc as u8,
            ;
            let bits = low.as_bits();
            proof {
                assert(bits@ =~= bits_of((pc % 256) as nat, 8));
            }
            self.program_counter = self.program_counter.wrapping_add(1);
            return CpuAction::DriveAddress(bits);
        } else if inputs.clock_falling {
            let decoded = self.state.try_decode(&inputs.data);
            let instruction = match decoded {
                Ok(Some(instruction)) => instruction,
                Ok(None) => return CpuAction::Idle,
                Err(_) => Instruction::Nop,
            };
            return instruction.run(self);
        }
        CpuAction::Idle
    }
}

/// Where the data lines `D0` to `D7` sit: down the left side.
pub open spec fn data_places() -> Seq<Pin> {
    seq![
        Pin::Left(4),
        Pin::Left(5),
        Pin::Left(6),
        Pin::Left(7),
        Pin::Left(8),
        Pin::Left(9),
        Pin::Left(10),
        Pin::Left(11),
    ]
}

/// Where the address lines `A0` to `A7` sit: down the right side.
pub open spec fn address_places() -> Seq<Pin> {
    seq![
        Pin::Right(0),
        Pin::Right(1),
        Pin::Right(2),
        Pin::Right(3),
        Pin::Right(4),
        Pin::Right(5),
        Pin::Right(6),
        Pin::Right(7),
    ]
}

/// The data lines of the CPU, `D0` first.
pub fn data_pins() -> (r: [Pin; 8])
    ensures
        r@ == data_places(),
{
    let r = [
        Pin::Left(4),
        Pin::Left(5),
        Pin::Left(6),
        Pin::Left(7),
        Pin::Left(8),
        Pin::Left(9),
        Pin::Left(10),
        Pin::Left(11),
    ];
    assert(r@ =~= data_places());
    r
}

/// The address lines of the CPU, `A0` first.
pub fn address_pins() -> (r: [Pin; 8])
    ensures
        r@ == address_places(),
{
    let r = [
        Pin::Right(0),
        Pin::Right(1),
        Pin::Right(2),
        Pin::Right(3),
        Pin::Right(4),
        Pin::Right(5),
        Pin::Right(6),
        Pin::Right(7),
    ];
    assert(r@ =~= address_places());
    r
}

/// Pins labelled `prefix` and `0`, `1`, ..., placed as `places` says.
pub open spec fn numbered_places(places: Seq<Pin>, prefix: Seq<char>) -> Seq<(Pin, Option<Seq<char>>, bool)> {
    Seq::new(places.len(), |i: int| (places[i], Some(numbered(prefix, i as nat)), false))
}

/// The CPU's pins: the data lines, the address lines, then the chip enable
/// `CE`, the interrupt request `IRQ`, the clock `CLK` and the read/write line
/// `RW` at the top of the left side.
pub open spec fn cpu_pins() -> Seq<(Pin, Option<Seq<char>>, bool)> {
    numbered_places(data_places(), "D"@) + numbered_places(address_places(), "A"@) + seq![
        (Pin::Left(0), Some("CE"@), false),
        (Pin::Left(1), Some("IRQ"@), false),
        (Pin::Left(2), Some("CLK"@), false),
        (Pin::Left(3), Some("RW"@), false),
    ]
}

/// The CPU's bus lines lie in order: data line `Di` sits on the left side at
/// row `4 + i`, below the four control pins, and address line `Ai` on the right
/// side at row `i`.
pub proof fn lemma_cpu_bus_lines_in_order(i: int)
    requires
        0 <= i < 8,
    ensures
        data_places()[i] == Pin::Left((4 + i) as usize),
        address_places()[i] == Pin::Right(i as usize),
        cpu_pins()[i] == (Pin::Left((4 + i) as usize), Some(numbered("D"@, i as nat)), false),
        cpu_pins()[8 + i] == (Pin::Right(i as usize), Some(numbered("A"@, i as nat)), false),
{
    let d = numbered_places(data_places(), "D"@);
    let a = numbered_places(address_places(), "A"@);
    assert(cpu_pins()[i] == d[i]);
    assert(cpu_pins()[8 + i] == a[i]);
}

fn push_numbered_places(pins: &mut Vec<(Pin, PinDef)>, places: &[Pin], prefix: &str)
    ensures
        pins_view(final(pins)@) == pins_view(old(pins)@) + numbered_places(places@, prefix@),
{
    let ghost start = pins_view(pins@);
    let mut i: usize = 0;
    while i < places.len()
        invariant
            i <= places@.len(),
            pins_view(pins@) == start + numbered_places(places@.subrange(0, i as int), prefix@),
        decreases places@.len() - i,
    {
        let entry = numbered_pin(places[i], prefix, i);
        let ghost before = pins@;
        pins.push(entry);
        proof {
            assert(pins_view(pins@) =~= pins_view(before).push(
                (places@[i as int], Some(numbered(prefix@, i as nat)), false),
            ));
            assert(numbered_places(places@.subrange(0, i + 1), prefix@) =~= numbered_places(
                places@.subrange(0, i as int),
                prefix@,
            ).push((places@[i as int], Some(numbered(prefix@, i as nat)), false)));
        }
        i = i + 1;
    }
    assert(places@.subrange(0, places@.len() as int) =~= places@);
}

impl CPU {
    /// The width and height in tiles of the layout that `setup` makes.
    pub open spec fn layout_size(&self) -> (u32, u32) {
        (4, 14)
    }

    /// Four tiles wide and fourteen high, laid out as `cpu_pins` says.
    pub fn setup(&self) -> (r: PinLayout)
        ensures
            r.size == (4u32, 14u32),
            r.size == self.layout_size(),
            layout_pins(r) == cpu_pins(),
            well_placed(r.size, layout_pins(r)),
    {
        let mut pins: Vec<(Pin, PinDef)> = Vec::new();
        assert(pins_view(pins@) =~= Seq::empty());
        let data = data_pins();
        let address = address_pins();
        push_numbered_places(&mut pins, &data, "D");
        push_numbered_places(&mut pins, &address, "A");
        let ghost before = pins@;
        pins.push(labelled(Pin::Left(0), "CE"));
        pins.push(labelled(Pin::Left(1), "IRQ"));
        pins.push(labelled(Pin::Left(2), "CLK"));
        pins.push(labelled(Pin::Left(3), "RW"));
        assert(pins_view(pins@) =~= pins_view(before) + seq![
            (Pin::Left(0), Some("CE"@), false),
            (Pin::Left(1), Some("IRQ"@), false),
            (Pin::Left(2), Some("CLK"@), false),
            (Pin::Left(3), Some("RW"@), false),
        ]);
        let r = PinLayout { size: (4, 14), pins };
        assert(layout_pins(r) =~= cpu_pins());
        r
    }
}

} // verus!
