//! Checks the assembler against an independent statement of its grammar
//! written with nom combinators, on many small generated programs.

use chip_game::assembler::compile_to_bytes;
use nom::{
    branch::alt,
    bytes::{
        complete::{tag, take_till, take_while1},
        take_while_m_n,
    },
    character::complete::{newline, space0, space1},
    combinator::map_res,
    multi::separated_list0,
    sequence::preceded,
    IResult, Parser,
};

fn register(i: &str) -> IResult<&str, Vec<u8>> {
    let (i, _) = tag("r")(i)?;
    let (i, n) = map_res(take_while1(|c: char| c.is_ascii_digit()), |s: &str| s.parse::<u8>()).parse(i)?;
    Ok((i, vec![n]))
}

fn constant(i: &str) -> IResult<&str, Vec<u8>> {
    fn hex(i: &str) -> IResult<&str, u16> {
        let (i, _) = tag("#")(i)?;
        map_res(take_while_m_n(4, 4, |c: char| c.is_ascii_hexdigit()), |s: &str| {
            u16::from_str_radix(s, 16)
        })
        .parse(i)
    }
    fn dec(i: &str) -> IResult<&str, u16> {
        map_res(take_while1(|c: char| c.is_ascii_digit()), |s: &str| s.parse::<u16>()).parse(i)
    }
    nom::combinator::map(alt((hex, dec)), |v| v.to_le_bytes().to_vec()).parse(i)
}

fn bracketed<'a>(
    inner: fn(&'a str) -> IResult<&'a str, Vec<u8>>,
) -> impl Fn(&'a str) -> IResult<&'a str, Vec<u8>> {
    move |i| {
        let (i, _) = tag("[")(i)?;
        let (i, v) = inner(i)?;
        let (i, _) = tag("]")(i)?;
        Ok((i, v))
    }
}

fn with_mode(mode: u8, mut v: Vec<u8>) -> Vec<u8> {
    v.insert(0, mode);
    v
}

fn writable(i: &str) -> IResult<&str, Vec<u8>> {
    alt((
        nom::combinator::map(register, |v| with_mode(0x10, v)),
        nom::combinator::map(bracketed(register), |v| with_mode(0x11, v)),
        nom::combinator::map(bracketed(constant), |v| with_mode(0x01, v)),
    ))
    .parse(i)
}

fn readable(i: &str) -> IResult<&str, Vec<u8>> {
    alt((
        nom::combinator::map(register, |v| with_mode(0x10, v)),
        nom::combinator::map(bracketed(register), |v| with_mode(0x11, v)),
        nom::combinator::map(constant, |v| with_mode(0x00, v)),
        nom::combinator::map(bracketed(constant), |v| with_mode(0x01, v)),
    ))
    .parse(i)
}

fn instruction(i: &str) -> IResult<&str, Vec<u8>> {
    fn mov(i: &str) -> IResult<&str, Vec<u8>> {
        let (i, _) = tag("mov").parse(i)?;
        let (i, _) = space1(i)?;
        let (i, from) = readable(i)?;
        let (i, _) = space1(i)?;
        let (i, to) = writable(i)?;
        let (i, _) = space0(i)?;
        let mut out = vec![0x01];
        out.extend(from);
        out.extend(to);
        Ok((i, out))
    }
    fn jmp(i: &str) -> IResult<&str, Vec<u8>> {
        let (i, _) = tag("jmp").parse(i)?;
        let (i, _) = space1(i)?;
        let (i, to) = readable(i)?;
        let (i, _) = space0(i)?;
        Ok((i, with_mode(0x02, to)))
    }
    alt((mov, jmp)).parse(i)
}

fn line(i: &str) -> IResult<&str, Vec<u8>> {
    let (i, v) = instruction(i)?;
    let (i, _) = preceded((space0::<_, nom::error::Error<&str>>, tag("#")), take_till(|c: char| c == '\n'))
        .parse(i)
        .unwrap_or((i, ""));
    let (i, _) = space0(i)?;
    Ok((i, v))
}

fn reference_compile(input: &str) -> Option<Vec<u8>> {
    let (_, lines) = separated_list0(newline, preceded(space0, line)).parse(input).ok()?;
    Some(lines.concat())
}

const PIECES: [&str; 21] = [
    "mov ", "jmp ", "jmp r", "mov", " ", "\t", "\n", "#", "#00", "#0a0F", "[", "]", "r", "r1 ", "12",
    "300", "70000", "x", "9", "# note", "[r2]",
];

#[test]
fn compiler_agrees_with_grammar_on_generated_programs() {
    let mut seed: u64 = 0x2545_f491_4f6c_dd1d;
    let mut checked = 0;
    for _ in 0..20000 {
        let mut text = String::new();
        seed ^= seed << 13;
        seed ^= seed >> 7;
        seed ^= seed << 17;
        let count = (seed % 9) as usize;
        for k in 0..count {
            let pick = ((seed >> (k * 5 + 3)) % PIECES.len() as u64) as usize;
            text.push_str(PIECES[pick]);
        }
        assert_eq!(compile_to_bytes(&text), reference_compile(&text), "input {:?}", text);
        checked += 1;
    }
    let fixed = [
        "mov 10 [0] # Hello, world!",
        "mov r1 [#0010] \njmp 4\n",
        "jmp #0010",
        "  mov [r255] r0\n\tjmp 65535 # end\nmov 1 2",
        "mov #0001 [r1]\nmov r256 r1",
    ];
    for text in fixed {
        assert_eq!(compile_to_bytes(text), reference_compile(text), "input {:?}", text);
    }
    assert_eq!(checked, 20000);
}
