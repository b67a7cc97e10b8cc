use chip_game::assembler::{
    compile_to_bytes, fill_to, AddressingMode, AsBytes, Bracketed, Commented, Constant,
    Instruction, Jump, Move, Parse, Program, ProgramLine, ReadableTarget, Register,
    TryFromBytes, WritableTarget, MODE_CONST, MODE_CONST_ADDR, MODE_REGISTER, MODE_REGISTER_ADDR,
};
use chip_game::text::ParseFailure;

#[test]
fn test_parsing_and_to_bytes() {
    let (rest_input, result) = ProgramLine::parse("mov 10 [0] # Hello, world!").unwrap();
    assert_eq!(rest_input, "");
    assert_eq!(
        result,
        ProgramLine::Instruction(Commented {
            value: Instruction::Move(Move {
                from: ReadableTarget::Constant(Constant(10)),
                to: WritableTarget::ConstantAddress(Bracketed(Constant(0))),
            }),
            comment: Some(" Hello, world!".into()),
        })
    );

    let ProgramLine::Instruction(instruction) = result else {
        panic!();
    };

    let parsed_bytes = instruction.value.as_bytes().into_iter().collect::<Vec<_>>();

    let bytes = [
        // mov
        0x01,
        // 10
        MODE_CONST, 10, 0,
        // [0]
        MODE_CONST_ADDR, 0, 0,
    ];

    assert_eq!(parsed_bytes, bytes);

    let Instruction::Move(mv) = instruction.value else {
        panic!();
    };

    let (_, byte_mv) = Move::try_from_bytes(&bytes).unwrap();

    assert_eq!(byte_mv, mv);
}

#[test]
fn registers_and_constants() {
    assert_eq!(Register::parse("r7,"), Ok((",".to_string(), Register(7))));
    assert_eq!(Register::parse("r255"), Ok((String::new(), Register(255))));
    assert_eq!(Register::parse("r256"), Err(ParseFailure::Mismatch));
    assert_eq!(Register::parse("r"), Err(ParseFailure::Mismatch));
    assert_eq!(Register::parse("x1"), Err(ParseFailure::Mismatch));
    assert_eq!(Constant::parse("0042 "), Ok((" ".to_string(), Constant(42))));
    assert_eq!(Constant::parse("65535"), Ok((String::new(), Constant(65535))));
    assert_eq!(Constant::parse("65536"), Err(ParseFailure::Mismatch));
    assert_eq!(Constant::parse("#00fF]"), Ok(("]".to_string(), Constant(255))));
    assert_eq!(Constant::parse("#12345"), Ok(("5".to_string(), Constant(0x1234))));
    // a hex field that reaches the end of the input needs more input
    assert_eq!(Constant::parse("#1234"), Err(ParseFailure::Incomplete));
    assert_eq!(Constant::parse("#12"), Err(ParseFailure::Incomplete));
    assert_eq!(Constant::parse("#12g4 "), Err(ParseFailure::Mismatch));
}

#[test]
fn targets() {
    assert_eq!(
        WritableTarget::parse("[r3]"),
        Ok((String::new(), WritableTarget::RegisterAddress(Bracketed(Register(3)))))
    );
    assert_eq!(WritableTarget::parse("5"), Err(ParseFailure::Mismatch));
    assert_eq!(
        ReadableTarget::parse("5 x"),
        Ok((" x".to_string(), ReadableTarget::Constant(Constant(5))))
    );
    assert_eq!(
        ReadableTarget::parse("[#0010]"),
        Ok((String::new(), ReadableTarget::ConstantAddress(Bracketed(Constant(16)))))
    );
    assert_eq!(ReadableTarget::parse("[r1"), Err(ParseFailure::Mismatch));
}

#[test]
fn instructions_from_text() {
    assert_eq!(
        Instruction::parse("jmp\t#0010 \n"),
        Ok(("\n".to_string(), Instruction::Jump(Jump { to: ReadableTarget::Constant(Constant(16)) })))
    );
    assert_eq!(
        Instruction::parse("mov r1 [r2]  "),
        Ok((
            String::new(),
            Instruction::Move(Move {
                from: ReadableTarget::Register(Register(1)),
                to: WritableTarget::RegisterAddress(Bracketed(Register(2))),
            })
        ))
    );
    assert_eq!(Instruction::parse("movr1 r2"), Err(ParseFailure::Mismatch));
    assert_eq!(Instruction::parse("mov 1 2"), Err(ParseFailure::Mismatch));
    assert_eq!(Instruction::parse("jmp #0010"), Err(ParseFailure::Incomplete));
}

#[test]
fn programs() {
    let (rest, program) = Program::parse("  mov 1 r0 # one\njmp 0\nnot an instruction").unwrap();
    assert_eq!(rest, "\nnot an instruction");
    assert_eq!(program.lines.len(), 2);
    assert_eq!(
        compile_to_bytes("mov 1 r0\n jmp 3"),
        Some(vec![0x01, MODE_CONST, 1, 0, MODE_REGISTER, 0, 0x02, MODE_CONST, 3, 0])
    );
    assert_eq!(compile_to_bytes(""), Some(vec![]));
    // jmp takes any readable operand, as the instruction set has it
    assert_eq!(compile_to_bytes("jmp r0"), Some(vec![0x02, 0x10, 0x00]));
    assert_eq!(compile_to_bytes("jmp [r3]\n"), Some(vec![0x02, MODE_REGISTER_ADDR, 3]));
    assert_eq!(compile_to_bytes("hello"), Some(vec![]));
    assert_eq!(compile_to_bytes("jmp 1\n\njmp 2"), Some(vec![0x02, MODE_CONST, 1, 0]));
    assert_eq!(compile_to_bytes("jmp 1\njmp #0002"), None);
    assert_eq!(compile_to_bytes("jmp 1\njmp #0002\n"), Some(vec![0x02, MODE_CONST, 1, 0, 0x02, MODE_CONST, 2, 0]));
}

#[test]
fn program_compiles_to_instruction_bytes() {
    let (_, program) = Program::parse("mov [r1] [#0102]\njmp 258").unwrap();
    assert_eq!(
        program.compile(),
        vec![0x01, MODE_REGISTER_ADDR, 1, MODE_CONST_ADDR, 2, 1, 0x02, MODE_CONST, 2, 1]
    );
}

#[test]
fn encoding_roundtrips() {
    let moves = [
        Move { from: ReadableTarget::Register(Register(9)), to: WritableTarget::Register(Register(200)) },
        Move {
            from: ReadableTarget::RegisterAddress(Bracketed(Register(1))),
            to: WritableTarget::ConstantAddress(Bracketed(Constant(0xbeef))),
        },
        Move {
            from: ReadableTarget::ConstantAddress(Bracketed(Constant(7))),
            to: WritableTarget::RegisterAddress(Bracketed(Register(2))),
        },
        Move { from: ReadableTarget::Constant(Constant(65535)), to: WritableTarget::Register(Register(0)) },
    ];
    for m in moves {
        let mut bytes = m.as_bytes();
        bytes.extend_from_slice(&[0xaa, 0xbb]);
        let (rest, decoded) = Move::try_from_bytes(&bytes).unwrap();
        assert_eq!(decoded, m);
        assert_eq!(rest, &[0xaa, 0xbb]);
    }
    let j = Jump { to: ReadableTarget::Constant(Constant(0x1234)) };
    assert_eq!(j.as_bytes(), vec![0x02, MODE_CONST, 0x34, 0x12]);
    assert_eq!(Jump::try_from_bytes(&[0x02, MODE_CONST, 0x34, 0x12]).unwrap().1, j);
    assert!(Jump::try_from_bytes(&[0x01, MODE_CONST, 0x34, 0x12]).is_none());
    assert!(Jump::try_from_bytes(&[0x02, MODE_CONST, 0x34]).is_none());
    let jr = Jump { to: ReadableTarget::Register(Register(0)) };
    assert_eq!(jr.as_bytes(), vec![0x02, MODE_REGISTER, 0]);
    assert_eq!(Jump::try_from_bytes(&[0x02, MODE_REGISTER, 0]).unwrap().1, jr);
    // a constant is not a writable target
    assert!(WritableTarget::try_from_bytes(&[MODE_CONST, 1, 0]).is_none());
    assert!(Move::try_from_bytes(&[0x01, MODE_CONST, 1, 0, MODE_CONST, 1, 0]).is_none());
    assert!(ReadableTarget::try_from_bytes(&[0x42, 1, 0]).is_none());
}

#[test]
fn addressing_modes() {
    assert_eq!(AddressingMode::try_from_byte(MODE_REGISTER), Some(AddressingMode::Register));
    assert_eq!(AddressingMode::try_from_byte(MODE_REGISTER_ADDR), Some(AddressingMode::RegisterAddr));
    assert_eq!(AddressingMode::try_from_byte(MODE_CONST), Some(AddressingMode::Const));
    assert_eq!(AddressingMode::try_from_byte(MODE_CONST_ADDR), Some(AddressingMode::ConstAddr));
    assert_eq!(AddressingMode::try_from_byte(0x02), None);
    for b in 0..=255u8 {
        if let Some(m) = AddressingMode::try_from_byte(b) {
            assert_eq!(m.as_bytes(), vec![b]);
        }
    }
}

#[test]
fn padding_to_a_fixed_size() {
    assert_eq!(fill_to::<4>(&[1, 2]), Some([1, 2, 0, 0]));
    assert_eq!(fill_to::<2>(&[1, 2]), Some([1, 2]));
    assert_eq!(fill_to::<1>(&[1, 2]), None);
    assert_eq!(fill_to::<3>(&[]), Some([0, 0, 0]));
}

#[test]
fn two_lines_compile_to_both_lines_bytes() {
    let a = "mov [r1] r2 # copy";
    let b = "  jmp r0";
    let x = compile_to_bytes(a).unwrap();
    let y = compile_to_bytes(b).unwrap();
    let joined = format!("{a}\n{b}");
    let mut both = x.clone();
    both.extend_from_slice(&y);
    assert_eq!(compile_to_bytes(&joined), Some(both));
    assert_eq!(x, vec![0x01, MODE_REGISTER_ADDR, 1, MODE_REGISTER, 2]);
}
