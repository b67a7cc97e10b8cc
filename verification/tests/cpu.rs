use chip_game::bits::AsBits;
use chip_game::cpu::{CpuAction, CpuInputs, DecodeError, DecodeState, Instruction, CPU};

fn inputs(clock_rising: bool, clock_falling: bool, data: u8) -> CpuInputs {
    CpuInputs {
        enabled: true,
        interrupt_rising: false,
        clock_rising,
        clock_falling,
        data: data.as_bits(),
    }
}

#[test]
fn instruction_bytes() {
    // mov is opcode 01 and jmp is opcode 02, as the instruction set has them
    assert_eq!(Instruction::try_parse(&[2, 0x34, 0x12]), Some(Instruction::Jump(0x1234)));
    assert_eq!(Instruction::try_parse(&[1, 5, 6]), Some(Instruction::Move(5, 6)));
    assert_eq!(Instruction::try_parse(&[1, 5]), None);
    assert_eq!(Instruction::try_parse(&[3, 5, 6]), None);
    assert_eq!(Instruction::try_parse(&[2, 0, 0, 0]), None);
}

#[test]
fn decoding_collects_bytes_until_an_instruction() {
    let mut state = DecodeState::new();
    assert!(matches!(state.try_decode(&1u8.as_bits()), Ok(None)));
    assert!(matches!(state.try_decode(&7u8.as_bits()), Ok(None)));
    assert!(matches!(state.try_decode(&9u8.as_bits()), Ok(Some(Instruction::Move(7, 9)))));
    // the pending bytes were dropped: a fresh instruction decodes
    assert!(matches!(state.try_decode(&1u8.as_bits()), Ok(None)));
    state.reset();
    for b in [9u8, 9, 9, 9] {
        assert!(matches!(state.try_decode(&b.as_bits()), Ok(None)));
    }
    assert!(state.try_decode(&9u8.as_bits()).is_err());
    assert!(state.try_parse_instruction().is_err());
}

#[test]
fn clock_edges_drive_the_program_counter() {
    let mut cpu = CPU::new();
    let action = cpu.update(&inputs(true, false, 0));
    assert_eq!(action, CpuAction::DriveAddress(0u8.as_bits()));
    assert_eq!(cpu.program_counter(), 1);
    let action = cpu.update(&inputs(true, false, 0));
    assert_eq!(action, CpuAction::DriveAddress(1u8.as_bits()));
    assert_eq!(cpu.program_counter(), 2);

    // jmp 0x0100 arrives one byte per falling edge
    assert_eq!(cpu.update(&inputs(false, true, 2)), CpuAction::Idle);
    assert_eq!(cpu.update(&inputs(false, true, 0x00)), CpuAction::Idle);
    assert_eq!(cpu.update(&inputs(false, true, 0x01)), CpuAction::Idle);
    assert_eq!(cpu.program_counter(), 0x0100);

    // a move is reported
    cpu.update(&inputs(false, true, 1));
    cpu.update(&inputs(false, true, 3));
    assert_eq!(cpu.update(&inputs(false, true, 4)), CpuAction::ReportMove(3, 4));
    assert_eq!(cpu.program_counter(), 0x0100);
}

#[test]
fn disabled_cpu_does_nothing_and_counter_wraps() {
    let mut cpu = CPU::new();
    let mut off = inputs(true, false, 0);
    off.enabled = false;
    assert_eq!(cpu.update(&off), CpuAction::Idle);
    assert_eq!(cpu.program_counter(), 0);
    cpu.update(&inputs(false, true, 2));
    cpu.update(&inputs(false, true, 0xff));
    cpu.update(&inputs(false, true, 0xff));
    assert_eq!(cpu.program_counter(), 0xffff);
    cpu.update(&inputs(true, false, 0));
    assert_eq!(cpu.program_counter(), 0);
    assert_eq!(cpu.update(&inputs(false, false, 0)), CpuAction::Idle);
}

#[test]
fn address_bus_carries_the_low_byte() {
    let mut cpu = CPU::new();
    cpu.update(&inputs(false, true, 2));
    cpu.update(&inputs(false, true, 0x34));
    cpu.update(&inputs(false, true, 0x12));
    assert_eq!(cpu.program_counter(), 0x1234);
    assert_eq!(cpu.update(&inputs(true, false, 0)), CpuAction::DriveAddress(0x34u8.as_bits()));
}

#[test]
fn overlong_bytes_are_an_invalid_instruction() {
    let mut state = DecodeState::new();
    for b in [9u8, 9, 9, 9] {
        assert!(matches!(state.try_decode(&b.as_bits()), Ok(None)));
    }
    match state.try_decode(&9u8.as_bits()) {
        Err(DecodeError::Other(message)) => assert_eq!(message, "invalid instruction"),
        other => panic!("unexpected {:?}", other),
    }
}
