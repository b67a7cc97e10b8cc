//! The assembly language of the 8-bit CPU: its text syntax, its machine
//! encoding, and the compiler from program text to bytes.
//!
//! Syntax (see the instruction set table):
//! - a constant is `42` (decimal) or `#002a` (exactly four hex digits);
//! - a register is `r0`;
//! - an address is a register or a constant in square brackets, `[r0]`, `[0]`;
//! - `mov <readable> <writable>` and `jmp <readable>`, one per line, each
//!   optionally followed by a `#` comment.
//!
//! Machine encoding: an opcode byte, then each operand as an addressing-mode
//! byte followed by the operand's little-endian bytes.

use vstd::prelude::*;

use crate::text::{
    CharClass, ParseFailure, chars_of, digit_of, digits_value, digits_value_capped, in_class,
    lemma_digits_value_bound, lemma_run_end, run_end, scan_run, substring,
};

verus! {

/// Whether an executable parse result agrees with a specified one.
pub open spec fn outcome_agrees<T>(
    r: Result<(usize, T), ParseFailure>,
    spec: Result<(int, T), ParseFailure>,
) -> bool {
    match r {
        Ok((p, v)) => spec == Ok::<(int, T), ParseFailure>((p as int, v)),
        Err(e) => spec == Err::<(int, T), ParseFailure>(e),
    }
}

/// Ordered choice: the second alternative is tried only when the first mismatches.
pub open spec fn spec_alt<T>(
    first: Result<(int, T), ParseFailure>,
    second: Result<(int, T), ParseFailure>,
) -> Result<(int, T), ParseFailure> {
    match first {
        Err(ParseFailure::Mismatch) => second,
        _ => first,
    }
}

/// Applies `f` to the value of a successful parse.
pub open spec fn spec_map<A, B>(
    r: Result<(int, A), ParseFailure>,
    f: spec_fn(A) -> B,
) -> Result<(int, B), ParseFailure> {
    match r {
        Ok((p, a)) => Ok((p, f(a))),
        Err(e) => Err(e),
    }
}

/// The end of the run of spaces and tabs at `i`.
pub open spec fn spaces_end(s: Seq<char>, i: int) -> int {
    run_end(s, i, CharClass::Space)
}

/// Values that can be read from assembly text.
pub trait Parse: Sized {
    /// The outcome of reading a value from `s` at position `pos`: the position
    /// after the value and the value, or why nothing could be read.
    spec fn spec_parse_at(s: Seq<char>, pos: int) -> Result<(int, Self), ParseFailure>;

    fn parse_at(s: &Vec<char>, pos: usize) -> (r: Result<(usize, Self), ParseFailure>)
        requires
            pos <= s@.len(),
        ensures
            outcome_agrees(r, Self::spec_parse_at(s@, pos as int)),
            r matches Ok((p, _)) ==> pos <= p <= s@.len(),
    ;

    /// Reads a value from the start of `input` and returns the rest of the input with it.
    fn parse(input: &str) -> (r: Result<(String, Self), ParseFailure>)
        ensures
            (match r {
                Ok((rest, v)) => match Self::spec_parse_at(input@, 0) {
                    Ok((p, w)) => w == v && rest@ == input@.subrange(p, input@.len() as int),
                    Err(_) => false,
                },
                Err(e) => Self::spec_parse_at(input@, 0) == Err::<(int, Self), ParseFailure>(e),
            }),
    {
        let s = chars_of(input);
        match Self::parse_at(&s, 0) {
            Ok((p, v)) => Ok((substring(&s, p, s.len()), v)),
            Err(e) => Err(e),
        }
    }
}

/// A general-purpose register, `r0` to `r255`.
#[derive(PartialEq, Eq, Debug, Clone, Copy)]
pub struct Register(pub u8);

/// A 16-bit constant.
#[derive(PartialEq, Eq, Debug, Clone, Copy)]
pub struct Constant(pub u16);

/// A value written in square brackets: an address.
#[derive(PartialEq, Eq, Debug, Clone, Copy)]
pub struct Bracketed<T: Parse>(pub T);

/// A register, or an address held in a register, or a constant address.
#[derive(PartialEq, Eq, Debug, Clone, Copy)]
pub enum WritableTarget {
    Register(Register),
    RegisterAddress(Bracketed<Register>),
    ConstantAddress(Bracketed<Constant>),
}

/// Everything writable, and constants.
#[derive(PartialEq, Eq, Debug, Clone, Copy)]
pub enum ReadableTarget {
    Register(Register),
    RegisterAddress(Bracketed<Register>),
    Constant(Constant),
    ConstantAddress(Bracketed<Constant>),
}

/// `mov <readable> <writable>`, opcode `0x01`.
#[derive(PartialEq, Eq, Debug, Clone)]
pub struct Move {
    pub from: ReadableTarget,
    pub to: WritableTarget,
}

/// `jmp <readable>`, opcode `0x02`.
#[derive(PartialEq, Eq, Debug, Clone)]
pub struct Jump {
    pub to: ReadableTarget,
}

#[derive(PartialEq, Eq, Debug, Clone)]
pub enum Instruction {
    Move(Move),
    Jump(Jump),
}

/// The outcome of reading a number as a run of decimal digits at `pos`,
/// when the number must be at most `max`.
pub open spec fn spec_decimal(s: Seq<char>, pos: int, max: nat) -> Result<(int, nat), ParseFailure> {
    let e = run_end(s, pos, CharClass::Decimal);
    if e == pos {
        Err(ParseFailure::Mismatch)
    } else if digits_value(s.subrange(pos, e), 10) <= max {
        Ok((e, digits_value(s.subrange(pos, e), 10)))
    } else {
        Err(ParseFailure::Mismatch)
    }
}

/// The outcome of reading exactly `width` digits of `class` after a marker of
/// `marker_len` characters at `pos` (the marker itself is checked by the caller).
///
/// The field may not end the input: reading stops when the character after the
/// field has been seen, so a field that reaches the end of the input is
/// `Incomplete`, as is a short field cut off by the end of the input.
pub open spec fn spec_fixed_digits(
    s: Seq<char>,
    start: int,
    width: int,
    class: CharClass,
    radix: nat,
) -> Result<(int, nat), ParseFailure> {
    let e = run_end(s, start, class);
    if e - start >= width && start + width < s.len() {
        Ok((start + width, digits_value(s.subrange(start, start + width), radix)))
    } else if e - start < width && e < s.len() {
        Err(ParseFailure::Mismatch)
    } else {
        Err(ParseFailure::Incomplete)
    }
}

/// `#` followed by four hex digits.
pub open spec fn spec_hex_u16(s: Seq<char>, pos: int) -> Result<(int, nat), ParseFailure> {
    if 0 <= pos < s.len() && s[pos] == '#' {
        spec_fixed_digits(s, pos + 1, 4, CharClass::Hex, 16)
    } else {
        Err(ParseFailure::Mismatch)
    }
}

/// `0b` followed by sixteen binary digits.
pub open spec fn spec_bin_u16(s: Seq<char>, pos: int) -> Result<(int, nat), ParseFailure> {
    if 0 <= pos && pos + 2 <= s.len() && s[pos] == '0' && s[pos + 1] == 'b' {
        spec_fixed_digits(s, pos + 2, 16, CharClass::Binary, 2)
    } else {
        Err(ParseFailure::Mismatch)
    }
}

proof fn lemma_digits_below(s: Seq<char>, from: int, to: int, class: CharClass, radix: nat)
    requires
        0 <= from <= to <= run_end(s, from, class),
        from <= s.len(),
        class == CharClass::Decimal || class == CharClass::Hex || class == CharClass::Binary,
        class == CharClass::Decimal ==> radix == 10,
        class == CharClass::Hex ==> radix == 16,
        class == CharClass::Binary ==> radix == 2,
    ensures
        forall|k: int| from <= k < to ==> in_class(CharClass::Hex, #[trigger] s[k]),
        forall|k: int| from <= k < to ==> digit_of(#[trigger] s[k]) < radix,
        forall|k: int|
            0 <= k < to - from ==> digit_of(#[trigger] s.subrange(from, to)[k]) < radix,
        to <= s.len(),
{
    lemma_run_end(s, from, class);
    assert forall|k: int| 0 <= k < to - from implies digit_of(#[trigger] s.subrange(from, to)[k])
        < radix by {
        assert(s.subrange(from, to)[k] == s[from + k]);
    }
}

fn parse_decimal(s: &Vec<char>, pos: usize, max: u32) -> (r: Result<(usize, u32), ParseFailure>)
    requires
        pos <= s@.len(),
        max < 0x10000,
    ensures
        match r {
            Ok((p, v)) => spec_decimal(s@, pos as int, max as nat) == Ok::<(int, nat), ParseFailure>(
                (p as int, v as nat),
            ) && pos <= p <= s@.len() && v <= max,
            Err(e) => spec_decimal(s@, pos as int, max as nat) == Err::<(int, nat), ParseFailure>(
                e,
            ),
        },
{
    let e = scan_run(s, pos, CharClass::Decimal);
    if e == pos {
        return Err(ParseFailure::Mismatch);
    }
    proof {
        lemma_digits_below(s@, pos as int, e as int, CharClass::Decimal, 10);
    }
    let v = digits_value_capped(s, pos, e, 10, max + 1);
    if v <= max {
        Ok((e, v))
    } else {
        Err(ParseFailure::Mismatch)
    }
}

fn parse_fixed_digits(
    s: &Vec<char>,
    start: usize,
    width: usize,
    class: CharClass,
    radix: u32,
) -> (r: Result<(usize, u32), ParseFailure>)
    requires
        start <= s@.len(),
        (class == CharClass::Hex && radix == 16 && width == 4) || (class == CharClass::Binary
            && radix == 2 && width == 16),
    ensures
        match r {
            Ok((p, v)) => spec_fixed_digits(s@, start as int, width as int, class, radix as nat)
                == Ok::<(int, nat), ParseFailure>((p as int, v as nat)) && start <= p <= s@.len()
                && v < 0x10000,
            Err(e) => spec_fixed_digits(s@, start as int, width as int, class, radix as nat)
                == Err::<(int, nat), ParseFailure>(e),
        },
{
    let e = scan_run(s, start, class);
    if e - start >= width && width < s.len() - start {
        proof {
            lemma_digits_below(s@, start as int, (start + width) as int, class, radix as nat);
            lemma_digits_value_bound(s@.subrange(start as int, start + width), radix as nat);
            lemma_pow_16_bits();
        }
        let v = digits_value_capped(s, start, start + width, radix, 0x10000);
        Ok((start + width, v))
    } else if e - start < width && e < s.len() {
        Err(ParseFailure::Mismatch)
    } else {
        Err(ParseFailure::Incomplete)
    }
}

proof fn lemma_pow_16_bits()
    ensures
        vstd::arithmetic::power::pow(16, 4) == 0x10000,
        vstd::arithmetic::power::pow(2, 16) == 0x10000,
{
    vstd::arithmetic::power2::lemma2_to64();
    vstd::arithmetic::power2::lemma_pow2(16);
    vstd::arithmetic::power2::lemma_pow2(4);
    vstd::arithmetic::power::lemma_pow_multiplies(2, 4, 4);
}

fn parse_dec_u16(s: &Vec<char>, pos: usize) -> (r: Result<(usize, u16), ParseFailure>)
    requires
        pos <= s@.len(),
    ensures
        match r {
            Ok((p, v)) => spec_decimal(s@, pos as int, 0xffff) == Ok::<(int, nat), ParseFailure>(
                (p as int, v as nat),
            ) && pos <= p <= s@.len(),
            Err(e) => spec_decimal(s@, pos as int, 0xffff) == Err::<(int, nat), ParseFailure>(e),
        },
{
    match parse_decimal(s, pos, 0xffff) {
        Ok((p, v)) => Ok((p, v as u16)),
        Err(e) => Err(e),
    }
}

fn parse_hex_u16(s: &Vec<char>, pos: usize) -> (r: Result<(usize, u16), ParseFailure>)
    requires
        pos <= s@.len(),
    ensures
        match r {
            Ok((p, v)) => spec_hex_u16(s@, pos as int) == Ok::<(int, nat), ParseFailure>(
                (p as int, v as nat),
            ) && pos <= p <= s@.len(),
            Err(e) => spec_hex_u16(s@, pos as int) == Err::<(int, nat), ParseFailure>(e),
        },
{
    if pos < s.len() && s[pos] == '#' {
        match parse_fixed_digits(s, pos + 1, 4, CharClass::Hex, 16) {
            Ok((p, v)) => Ok((p, v as u16)),
            Err(e) => Err(e),
        }
    } else {
        Err(ParseFailure::Mismatch)
    }
}

/// Reads `0b` followed by sixteen binary digits.
pub fn parse_bin_u16(s: &Vec<char>, pos: usize) -> (r: Result<(usize, u16), ParseFailure>)
    requires
        pos <= s@.len(),
    ensures
        match r {
            Ok((p, v)) => spec_bin_u16(s@, pos as int) == Ok::<(int, nat), ParseFailure>(
                (p as int, v as nat),
            ) && pos <= p <= s@.len(),
            Err(e) => spec_bin_u16(s@, pos as int) == Err::<(int, nat), ParseFailure>(e),
        },
{
    if s.len() >= 2 && pos <= s.len() - 2 && s[pos] == '0' && s[pos + 1] == 'b' {
        match parse_fixed_digits(s, pos + 2, 16, CharClass::Binary, 2) {
            Ok((p, v)) => Ok((p, v as u16)),
            Err(e) => Err(e),
        }
    } else {
        Err(ParseFailure::Mismatch)
    }
}

impl Parse for Register {
    /// `r` followed by the decimal register number, at most 255.
    open spec fn spec_parse_at(s: Seq<char>, pos: int) -> Result<(int, Register), ParseFailure> {
        if 0 <= pos < s.len() && s[pos] == 'r' {
            spec_map(spec_decimal(s, pos + 1, 255), |v: nat| Register(v as u8))
        } else {
            Err(ParseFailure::Mismatch)
        }
    }

    fn parse_at(s: &Vec<char>, pos: usize) -> (r: Result<(usize, Register), ParseFailure>) {
        if pos < s.len() && s[pos] == 'r' {
            match parse_decimal(s, pos + 1, 255) {
                Ok((p, v)) => Ok((p, Register(v as u8))),
                Err(e) => Err(e),
            }
        } else {
            Err(ParseFailure::Mismatch)
        }
    }
}

impl Parse for Constant {
    /// A hex constant `#hhhh`, or else a decimal constant of at most 65535.
    open spec fn spec_parse_at(s: Seq<char>, pos: int) -> Result<(int, Constant), ParseFailure> {
        spec_alt(
            spec_map(spec_hex_u16(s, pos), |v: nat| Constant(v as u16)),
            spec_map(spec_decimal(s, pos, 0xffff), |v: nat| Constant(v as u16)),
        )
    }

    fn parse_at(s: &Vec<char>, pos: usize) -> (r: Result<(usize, Constant), ParseFailure>) {
        match parse_hex_u16(s, pos) {
            Ok((p, v)) => Ok((p, Constant(v))),
            Err(ParseFailure::Incomplete) => Err(ParseFailure::Incomplete),
            Err(ParseFailure::Mismatch) => match parse_dec_u16(s, pos) {
                Ok((p, v)) => Ok((p, Constant(v))),
                Err(e) => Err(e),
            },
        }
    }
}

impl<T: Parse> Parse for Bracketed<T> {
    /// `[`, then the inner value, then `]`.
    open spec fn spec_parse_at(s: Seq<char>, pos: int) -> Result<(int, Bracketed<T>), ParseFailure> {
        if 0 <= pos < s.len() && s[pos] == '[' {
            match T::spec_parse_at(s, pos + 1) {
                Ok((p, v)) => if 0 <= p < s.len() && s[p] == ']' {
                    Ok((p + 1, Bracketed(v)))
                } else {
                    Err(ParseFailure::Mismatch)
                },
                Err(e) => Err(e),
            }
        } else {
            Err(ParseFailure::Mismatch)
        }
    }

    fn parse_at(s: &Vec<char>, pos: usize) -> (r: Result<(usize, Bracketed<T>), ParseFailure>) {
        if pos < s.len() && s[pos] == '[' {
            match T::parse_at(s, pos + 1) {
                Ok((p, v)) => if p < s.len() && s[p] == ']' {
                    Ok((p + 1, Bracketed(v)))
                } else {
                    Err(ParseFailure::Mismatch)
                },
                Err(e) => Err(e),
            }
        } else {
            Err(ParseFailure::Mismatch)
        }
    }
}

impl Parse for WritableTarget {
    /// Tries a register, then a register address, then a constant address.
    open spec fn spec_parse_at(s: Seq<char>, pos: int) -> Result<(int, WritableTarget), ParseFailure> {
        spec_alt(
            spec_map(Register::spec_parse_at(s, pos), |r: Register| WritableTarget::Register(r)),
            spec_alt(
                spec_map(
                    Bracketed::<Register>::spec_parse_at(s, pos),
                    |r: Bracketed<Register>| WritableTarget::RegisterAddress(r),
                ),
                spec_map(
                    Bracketed::<Constant>::spec_parse_at(s, pos),
                    |c: Bracketed<Constant>| WritableTarget::ConstantAddress(c),
                ),
            ),
        )
    }

    fn parse_at(s: &Vec<char>, pos: usize) -> (r: Result<(usize, WritableTarget), ParseFailure>) {
        match Register::parse_at(s, pos) {
            Ok((p, v)) => return Ok((p, WritableTarget::Register(v))),
            Err(ParseFailure::Incomplete) => return Err(ParseFailure::Incomplete),
            Err(ParseFailure::Mismatch) => {},
        }
        match Bracketed::<Register>::parse_at(s, pos) {
            Ok((p, v)) => return Ok((p, WritableTarget::RegisterAddress(v))),
            Err(ParseFailure::Incomplete) => return Err(ParseFailure::Incomplete),
            Err(ParseFailure::Mismatch) => {},
        }
        match Bracketed::<Constant>::parse_at(s, pos) {
            Ok((p, v)) => Ok((p, WritableTarget::ConstantAddress(v))),
            Err(e) => Err(e),
        }
    }
}

impl Parse for ReadableTarget {
    /// Tries a register, a register address, a constant, then a constant address.
    open spec fn spec_parse_at(s: Seq<char>, pos: int) -> Result<(int, ReadableTarget), ParseFailure> {
        spec_alt(
            spec_map(Register::spec_parse_at(s, pos), |r: Register| ReadableTarget::Register(r)),
            spec_alt(
                spec_map(
                    Bracketed::<Register>::spec_parse_at(s, pos),
                    |r: Bracketed<Register>| ReadableTarget::RegisterAddress(r),
                ),
                spec_alt(
                    spec_map(Constant::spec_parse_at(s, pos), |c: Constant| ReadableTarget::Constant(c)),
                    spec_map(
                        Bracketed::<Constant>::spec_parse_at(s, pos),
                        |c: Bracketed<Constant>| ReadableTarget::ConstantAddress(c),
                    ),
                ),
            ),
        )
    }

    fn parse_at(s: &Vec<char>, pos: usize) -> (r: Result<(usize, ReadableTarget), ParseFailure>) {
        match Register::parse_at(s, pos) {
            Ok((p, v)) => return Ok((p, ReadableTarget::Register(v))),
            Err(ParseFailure::Incomplete) => return Err(ParseFailure::Incomplete),
            Err(ParseFailure::Mismatch) => {},
        }
        match Bracketed::<Register>::parse_at(s, pos) {
            Ok((p, v)) => return Ok((p, ReadableTarget::RegisterAddress(v))),
            Err(ParseFailure::Incomplete) => return Err(ParseFailure::Incomplete),
            Err(ParseFailure::Mismatch) => {},
        }
        match Constant::parse_at(s, pos) {
            Ok((p, v)) => return Ok((p, ReadableTarget::Constant(v))),
            Err(ParseFailure::Incomplete) => return Err(ParseFailure::Incomplete),
            Err(ParseFailure::Mismatch) => {},
        }
        match Bracketed::<Constant>::parse_at(s, pos) {
            Ok((p, v)) => Ok((p, ReadableTarget::ConstantAddress(v))),
            Err(e) => Err(e),
        }
    }
}

/// Whether the three characters at `pos` are `a`, `b`, `c`.
pub open spec fn has_word_at(s: Seq<char>, pos: int, a: char, b: char, c: char) -> bool {
    0 <= pos && pos + 3 <= s.len() && s[pos] == a && s[pos + 1] == b && s[pos + 2] == c
}

fn word_at(s: &Vec<char>, pos: usize, a: char, b: char, c: char) -> (r: bool)
    requires
        pos <= s@.len(),
    ensures
        r == has_word_at(s@, pos as int, a, b, c),
        r ==> pos + 3 <= s.len(),
{
    s.len() >= 3 && pos <= s.len() - 3 && s[pos] == a && s[pos + 1] == b && s[pos + 2] == c
}

fn skip_spaces(s: &Vec<char>, pos: usize) -> (r: usize)
    requires
        pos <= s@.len(),
    ensures
        r as int == spaces_end(s@, pos as int),
        pos <= r <= s@.len(),
{
    scan_run(s, pos, CharClass::Space)
}

impl Parse for Move {
    /// `mov`, at least one space, the source, at least one space, the
    /// destination, then any spaces.
    open spec fn spec_parse_at(s: Seq<char>, pos: int) -> Result<(int, Move), ParseFailure> {
        if has_word_at(s, pos, 'm', 'o', 'v') && spaces_end(s, pos + 3) > pos + 3 {
            match ReadableTarget::spec_parse_at(s, spaces_end(s, pos + 3)) {
                Ok((p, from)) => if spaces_end(s, p) > p {
                    match WritableTarget::spec_parse_at(s, spaces_end(s, p)) {
                        Ok((q, to)) => Ok((spaces_end(s, q), Move { from, to })),
                        Err(e) => Err(e),
                    }
                } else {
                    Err(ParseFailure::Mismatch)
                },
                Err(e) => Err(e),
            }
        } else {
            Err(ParseFailure::Mismatch)
        }
    }

    fn parse_at(s: &Vec<char>, pos: usize) -> (r: Result<(usize, Move), ParseFailure>) {
        if !word_at(s, pos, 'm', 'o', 'v') {
            return Err(ParseFailure::Mismatch);
        }
        let a = skip_spaces(s, pos + 3);
        if a == pos + 3 {
            return Err(ParseFailure::Mismatch);
        }
        let (p, from) = match ReadableTarget::parse_at(s, a) {
            Ok(found) => found,
            Err(e) => return Err(e),
        };
        let b = skip_spaces(s, p);
        if b == p {
            return Err(ParseFailure::Mismatch);
        }
        let (q, to) = match WritableTarget::parse_at(s, b) {
            Ok(found) => found,
            Err(e) => return Err(e),
        };
        Ok((skip_spaces(s, q), Move { from, to }))
    }
}

impl Parse for Jump {
    /// `jmp`, at least one space, the target, then any spaces.
    open spec fn spec_parse_at(s: Seq<char>, pos: int) -> Result<(int, Jump), ParseFailure> {
        if has_word_at(s, pos, 'j', 'm', 'p') && spaces_end(s, pos + 3) > pos + 3 {
            match ReadableTarget::spec_parse_at(s, spaces_end(s, pos + 3)) {
                Ok((p, to)) => Ok((spaces_end(s, p), Jump { to })),
                Err(e) => Err(e),
            }
        } else {
            Err(ParseFailure::Mismatch)
        }
    }

    fn parse_at(s: &Vec<char>, pos: usize) -> (r: Result<(usize, Jump), ParseFailure>) {
        if !word_at(s, pos, 'j', 'm', 'p') {
            return Err(ParseFailure::Mismatch);
        }
        let a = skip_spaces(s, pos + 3);
        if a == pos + 3 {
            return Err(ParseFailure::Mismatch);
        }
        match ReadableTarget::parse_at(s, a) {
            Ok((p, to)) => Ok((skip_spaces(s, p), Jump { to })),
            Err(e) => Err(e),
        }
    }
}

impl Parse for Instruction {
    /// A `mov`, or else a `jmp`.
    open spec fn spec_parse_at(s: Seq<char>, pos: int) -> Result<(int, Instruction), ParseFailure> {
        spec_alt(
            spec_map(Move::spec_parse_at(s, pos), |m: Move| Instruction::Move(m)),
            spec_map(Jump::spec_parse_at(s, pos), |j: Jump| Instruction::Jump(j)),
        )
    }

    fn parse_at(s: &Vec<char>, pos: usize) -> (r: Result<(usize, Instruction), ParseFailure>) {
        match Move::parse_at(s, pos) {
            Ok((p, v)) => Ok((p, Instruction::Move(v))),
            Err(ParseFailure::Incomplete) => Err(ParseFailure::Incomplete),
            Err(ParseFailure::Mismatch) => match Jump::parse_at(s, pos) {
                Ok((p, v)) => Ok((p, Instruction::Jump(v))),
                Err(e) => Err(e),
            },
        }
    }
}

/// A value followed, on the same line, by an optional `#` comment.
#[derive(PartialEq, Eq, Debug)]
pub struct Commented<T: Parse> {
    pub value: T,
    pub comment: Option<String>,
}

/// Where the text after a value that ends at `p` ends: after its comment when
/// there is one (spaces, `#`, then everything up to the line feed), else at `p`.
pub open spec fn spec_comment_end(s: Seq<char>, p: int) -> int {
    let q = spaces_end(s, p);
    if 0 <= q < s.len() && s[q] == '#' {
        run_end(s, q + 1, CharClass::LineContent)
    } else {
        p
    }
}

/// The comment after a value that ends at `p`, without its `#`.
pub open spec fn spec_comment_text(s: Seq<char>, p: int) -> Option<Seq<char>> {
    let q = spaces_end(s, p);
    if 0 <= q < s.len() && s[q] == '#' {
        Some(s.subrange(q + 1, run_end(s, q + 1, CharClass::LineContent)))
    } else {
        None
    }
}

pub open spec fn comment_view(c: Option<String>) -> Option<Seq<char>> {
    match c {
        Some(t) => Some(t@),
        None => None,
    }
}

/// Reads the optional comment after a value that ends at `p`.
fn parse_comment(s: &Vec<char>, p: usize) -> (r: (usize, Option<String>))
    requires
        p <= s@.len(),
    ensures
        r.0 as int == spec_comment_end(s@, p as int),
        comment_view(r.1) == spec_comment_text(s@, p as int),
        p <= r.0 <= s@.len(),
{
    let q = skip_spaces(s, p);
    if q < s.len() && s[q] == '#' {
        let e = scan_run(s, q + 1, CharClass::LineContent);
        (e, Some(substring(s, q + 1, e)))
    } else {
        (p, None)
    }
}

impl<T: Parse> Commented<T> {
    pub fn parse_at(s: &Vec<char>, pos: usize) -> (r: Result<(usize, Commented<T>), ParseFailure>)
        requires
            pos <= s@.len(),
        ensures
            (match T::spec_parse_at(s@, pos as int) {
                Ok((p, v)) => match r {
                    Ok((e, c)) => e == spec_comment_end(s@, p) && c.value == v && comment_view(
                        c.comment,
                    ) == spec_comment_text(s@, p),
                    Err(_) => false,
                },
                Err(f) => r == Err::<(usize, Commented<T>), ParseFailure>(f),
            }),
            r matches Ok((e, _)) ==> pos <= e <= s@.len(),
    {
        match T::parse_at(s, pos) {
            Ok((p, value)) => {
                let (e, comment) = parse_comment(s, p);
                Ok((e, Commented { value, comment }))
            },
            Err(f) => Err(f),
        }
    }
}

/// A line of a program: an instruction with its comment, or a label.
#[derive(PartialEq, Eq, Debug)]
pub enum ProgramLine {
    Instruction(Commented<Instruction>),
    Label(String),
}

/// What a program line holds, as plain values: the instruction and its comment.
pub open spec fn line_view(l: ProgramLine) -> (Instruction, Option<Seq<char>>) {
    match l {
        ProgramLine::Instruction(c) => (c.value, comment_view(c.comment)),
        ProgramLine::Label(_) => arbitrary(),
    }
}

/// The outcome of reading an instruction line at `pos`: an instruction, its
/// optional comment, and any trailing spaces.
pub open spec fn spec_line(s: Seq<char>, pos: int) -> Result<
    (int, (Instruction, Option<Seq<char>>)),
    ParseFailure,
> {
    match Instruction::spec_parse_at(s, pos) {
        Ok((p, v)) => Ok((spaces_end(s, spec_comment_end(s, p)), (v, spec_comment_text(s, p)))),
        Err(f) => Err(f),
    }
}

pub open spec fn line_agrees(
    r: Result<(usize, ProgramLine), ParseFailure>,
    spec: Result<(int, (Instruction, Option<Seq<char>>)), ParseFailure>,
) -> bool {
    match r {
        Ok((e, l)) => l is Instruction && spec == Ok::<
            (int, (Instruction, Option<Seq<char>>)),
            ParseFailure,
        >((e as int, line_view(l))),
        Err(f) => spec == Err::<(int, (Instruction, Option<Seq<char>>)), ParseFailure>(f),
    }
}

impl ProgramLine {
    pub fn parse_at(s: &Vec<char>, pos: usize) -> (r: Result<(usize, ProgramLine), ParseFailure>)
        requires
            pos <= s@.len(),
        ensures
            line_agrees(r, spec_line(s@, pos as int)),
            r matches Ok((e, _)) ==> pos <= e <= s@.len(),
    {
        match Commented::<Instruction>::parse_at(s, pos) {
            Ok((p, c)) => Ok((skip_spaces(s, p), ProgramLine::Instruction(c))),
            Err(f) => Err(f),
        }
    }

    /// Reads one program line from the start of `input`; returns the rest of the input with it.
    pub fn parse(input: &str) -> (r: Result<(String, ProgramLine), ParseFailure>)
        ensures
            (match r {
                Ok((rest, l)) => match spec_line(input@, 0) {
                    Ok((p, v)) => l is Instruction && line_view(l) == v && rest@ == input@.subrange(
                        p,
                        input@.len() as int,
                    ),
                    Err(_) => false,
                },
                Err(f) => spec_line(input@, 0) == Err::<
                    (int, (Instruction, Option<Seq<char>>)),
                    ParseFailure,
                >(f),
            }),
    {
        let s = chars_of(input);
        match ProgramLine::parse_at(&s, 0) {
            Ok((p, l)) => Ok((substring(&s, p, s.len()), l)),
            Err(f) => Err(f),
        }
    }
}

/// The outcome of reading a program line after optional leading spaces.
pub open spec fn spec_item(s: Seq<char>, pos: int) -> Result<
    (int, (Instruction, Option<Seq<char>>)),
    ParseFailure,
> {
    spec_line(s, spaces_end(s, pos))
}

/// The outcome of reading further lines, each after a line feed, once the
/// lines `acc` have been read up to `pos`.
///
/// Reading stops, successfully, before a line feed that is not followed by a
/// line; a line that needs more input makes the whole program incomplete.
pub open spec fn spec_more_lines(s: Seq<char>, pos: int, acc: Seq<(Instruction, Option<Seq<char>>)>) -> Result<
    (int, Seq<(Instruction, Option<Seq<char>>)>),
    ParseFailure,
>
    decreases s.len() - pos,
{
    if 0 <= pos < s.len() && s[pos] == '\n' {
        match spec_item(s, pos + 1) {
            Err(ParseFailure::Mismatch) => Ok((pos, acc)),
            Err(ParseFailure::Incomplete) => Err(ParseFailure::Incomplete),
            Ok((p, l)) => if pos < p <= s.len() {
                spec_more_lines(s, p, acc.push(l))
            } else {
                Err(ParseFailure::Mismatch)
            },
        }
    } else {
        Ok((pos, acc))
    }
}

/// The outcome of reading a program: lines separated by line feeds, each
/// after optional spaces. A text that does not start with a line is the empty program.
pub open spec fn spec_program(s: Seq<char>) -> Result<
    (int, Seq<(Instruction, Option<Seq<char>>)>),
    ParseFailure,
> {
    match spec_item(s, 0) {
        Err(ParseFailure::Mismatch) => Ok((0, Seq::empty())),
        Err(ParseFailure::Incomplete) => Err(ParseFailure::Incomplete),
        Ok((p, l)) => spec_more_lines(s, p, seq![l]),
    }
}

/// A program: its lines in order.
#[derive(PartialEq, Eq, Debug)]
pub struct Program {
    pub lines: Vec<ProgramLine>,
}

pub open spec fn lines_view(lines: Seq<ProgramLine>) -> Seq<(Instruction, Option<Seq<char>>)> {
    lines.map_values(|l: ProgramLine| line_view(l))
}

pub open spec fn all_instructions(lines: Seq<ProgramLine>) -> bool {
    forall|i: int| 0 <= i < lines.len() ==> (#[trigger] lines[i]) is Instruction
}

fn parse_item(s: &Vec<char>, pos: usize) -> (r: Result<(usize, ProgramLine), ParseFailure>)
    requires
        pos <= s@.len(),
    ensures
        line_agrees(r, spec_item(s@, pos as int)),
        r matches Ok((e, _)) ==> pos <= e <= s@.len(),
{
    let a = skip_spaces(s, pos);
    ProgramLine::parse_at(s, a)
}

impl Program {
    pub fn parse_at(s: &Vec<char>) -> (r: Result<(usize, Program), ParseFailure>)
        ensures
            (match r {
                Ok((e, prog)) => spec_program(s@) == Ok::<
                    (int, Seq<(Instruction, Option<Seq<char>>)>),
                    ParseFailure,
                >((e as int, lines_view(prog.lines@))) && all_instructions(prog.lines@)
                    && e <= s@.len(),
                Err(f) => spec_program(s@) == Err::<
                    (int, Seq<(Instruction, Option<Seq<char>>)>),
                    ParseFailure,
                >(f),
            }),
    {
        let mut lines: Vec<ProgramLine> = Vec::new();
        let first = parse_item(s, 0);
        let mut pos = match first {
            Err(ParseFailure::Mismatch) => {
                assert(lines_view(lines@) =~= Seq::empty());
                return Ok((0, Program { lines }));
            },
            Err(ParseFailure::Incomplete) => return Err(ParseFailure::Incomplete),
            Ok((p, l)) => {
                lines.push(l);
                p
            },
        };
        assert(lines_view(lines@) =~= seq![line_view(lines@[0])]);
        loop
            invariant
                pos <= s@.len(),
                all_instructions(lines@),
                spec_program(s@) == spec_more_lines(s@, pos as int, lines_view(lines@)),
            decreases s@.len() - pos,
        {
            if !(pos < s.len() && s[pos] == '\n') {
                return Ok((pos, Program { lines }));
            }
            match parse_item(s, pos + 1) {
                Err(ParseFailure::Mismatch) => return Ok((pos, Program { lines })),
                Err(ParseFailure::Incomplete) => return Err(ParseFailure::Incomplete),
                Ok((p, l)) => {
                    let ghost before = lines@;
                    lines.push(l);
                    assert(lines_view(lines@) =~= lines_view(before).push(line_view(l)));
                    pos = p;
                },
            }
        }
    }

    /// Reads a program from the start of `input`; returns the rest of the input with it.
    pub fn parse(input: &str) -> (r: Result<(String, Program), ParseFailure>)
        ensures
            (match r {
                Ok((rest, prog)) => match spec_program(input@) {
                    Ok((p, ls)) => ls == lines_view(prog.lines@) && all_instructions(prog.lines@)
                        && rest@ == input@.subrange(p, input@.len() as int),
                    Err(_) => false,
                },
                Err(f) => spec_program(input@) == Err::<
                    (int, Seq<(Instruction, Option<Seq<char>>)>),
                    ParseFailure,
                >(f),
            }),
    {
        let s = chars_of(input);
        match Program::parse_at(&s) {
            Ok((p, prog)) => Ok((substring(&s, p, s.len()), prog)),
            Err(f) => Err(f),
        }
    }
}

pub const MODE_REGISTER: u8 = 0x10;

pub const MODE_REGISTER_ADDR: u8 = 0x11;

pub const MODE_CONST: u8 = 0x00;

pub const MODE_CONST_ADDR: u8 = 0x01;

/// Opcode of `mov`.
pub const OP_MOVE: u8 = 0x01;

/// Opcode of `jmp`.
pub const OP_JUMP: u8 = 0x02;

/// Values with a machine encoding.
pub trait AsBytes {
    spec fn spec_bytes(&self) -> Seq<u8>;

    fn as_bytes(&self) -> (r: Vec<u8>)
        ensures
            r@ == self.spec_bytes(),
    ;
}

/// Values that can be decoded from their machine encoding.
pub trait TryFromBytes: AsBytes + Sized {
    /// The value at the start of `b` and the bytes after it, if `b` starts with an encoding.
    spec fn spec_from_bytes(b: Seq<u8>) -> Option<(Seq<u8>, Self)>;

    fn try_from_bytes(bytes: &[u8]) -> (r: Option<(&[u8], Self)>)
        ensures
            (match r {
                Some((rest, v)) => Self::spec_from_bytes(bytes@) == Some((rest@, v)),
                None => Self::spec_from_bytes(bytes@) is None,
            }),
    ;

    /// Decoding the encoding of a value, whatever follows it, gives back the
    /// value and leaves exactly what followed.
    proof fn lemma_decode_encoded(v: Self, rest: Seq<u8>)
        ensures
            Self::spec_from_bytes(v.spec_bytes() + rest) == Some((rest, v)),
    ;

    /// A decoding consumes exactly the encoding of the value it gives.
    proof fn lemma_encode_decoded(b: Seq<u8>)
        ensures
            Self::spec_from_bytes(b) matches Some((rest, v)) ==> b == v.spec_bytes() + rest,
    ;
}

/// `a` followed by `b`.
fn concat(mut a: Vec<u8>, mut b: Vec<u8>) -> (r: Vec<u8>)
    ensures
        r@ == a@ + b@,
{
    a.append(&mut b);
    a
}

/// The first byte and the rest.
fn split_first_byte(bytes: &[u8]) -> (r: Option<(u8, &[u8])>)
    ensures
        (match r {
            Some((b, rest)) => bytes@.len() >= 1 && b == bytes@[0] && rest@ == bytes@.drop_first(),
            None => bytes@.len() == 0,
        }),
{
    if bytes.len() == 0 {
        None
    } else {
        let (_, rest) = bytes.split_at(1);
        assert(rest@ =~= bytes@.drop_first());
        Some((bytes[0], rest))
    }
}

impl AsBytes for Register {
    open spec fn spec_bytes(&self) -> Seq<u8> {
        seq![self.0]
    }

    fn as_bytes(&self) -> (r: Vec<u8>) {
        let r = vec![self.0];
        assert(r@ =~= seq![self.0]);
        r
    }
}

impl TryFromBytes for Register {
    open spec fn spec_from_bytes(b: Seq<u8>) -> Option<(Seq<u8>, Register)> {
        if b.len() >= 1 {
            Some((b.drop_first(), Register(b[0])))
        } else {
            None
        }
    }

    fn try_from_bytes(bytes: &[u8]) -> (r: Option<(&[u8], Register)>) {
        match split_first_byte(bytes) {
            Some((b, rest)) => Some((rest, Register(b))),
            None => None,
        }
    }

    proof fn lemma_decode_encoded(v: Register, rest: Seq<u8>) {
        assert((v.spec_bytes() + rest).drop_first() =~= rest);
    }

    proof fn lemma_encode_decoded(b: Seq<u8>) {
        if b.len() >= 1 {
            assert(b =~= seq![b[0]] + b.drop_first());
        }
    }
}

/// The little-endian bytes of a 16-bit value.
pub open spec fn le_bytes(v: u16) -> Seq<u8> {
    seq![(v % 256) as u8, (v / 256) as u8]
}

impl AsBytes for Constant {
    open spec fn spec_bytes(&self) -> Seq<u8> {
        le_bytes(self.0)
    }

    fn as_bytes(&self) -> (r: Vec<u8>) {
        let v = self.0;
        let lo = (v & 0xff) as u8;
        let hi = (v >> 8) as u8;
        assert(lo == v % 256 && hi == v / 256) by (bit_vector)
            requires
                lo == (v & 0xff) as u8,
                hi == (v >> 8) as u8,
        ;
        let r = vec![lo, hi];
        assert(r@ =~= le_bytes(v));
        r
    }
}

impl TryFromBytes for Constant {
    open spec fn spec_from_bytes(b: Seq<u8>) -> Option<(Seq<u8>, Constant)> {
        if b.len() >= 2 {
            Some((b.skip(2), Constant((b[0] + 256 * b[1]) as u16)))
        } else {
            None
        }
    }

    fn try_from_bytes(bytes: &[u8]) -> (r: Option<(&[u8], Constant)>) {
        if bytes.len() < 2 {
            return None;
        }
        let lo = bytes[0];
        let hi = bytes[1];
        let (_, rest) = bytes.split_at(2);
        assert(rest@ =~= bytes@.skip(2));
        let v = (lo as u16) | ((hi as u16) << 8);
        assert(v == lo + 256 * hi) by (bit_vector)
            requires
                v == (lo as u16) | ((hi as u16) << 8),
        ;
        Some((rest, Constant(v)))
    }

    proof fn lemma_decode_encoded(v: Constant, rest: Seq<u8>) {
        let b = v.spec_bytes() + rest;
        assert(b.skip(2) =~= rest);
        assert(b[0] == (v.0 % 256) as u8 && b[1] == (v.0 / 256) as u8);
        assert((v.0 % 256) + 256 * (v.0 / 256) == v.0);
    }

    proof fn lemma_encode_decoded(b: Seq<u8>) {
        if b.len() >= 2 {
            let v: u16 = (b[0] + 256 * b[1]) as u16;
            assert(b[0] + 256 * b[1] < 0x10000);
            assert(v % 256 == b[0] && v / 256 == b[1]);
            assert(b =~= le_bytes(v) + b.skip(2));
        }
    }
}

/// How an operand is to be read.
#[derive(PartialEq, Eq, Debug, Clone, Copy)]
pub enum AddressingMode {
    Register,
    RegisterAddr,
    Const,
    ConstAddr,
}

pub open spec fn mode_byte(m: AddressingMode) -> u8 {
    match m {
        AddressingMode::Register => MODE_REGISTER,
        AddressingMode::RegisterAddr => MODE_REGISTER_ADDR,
        AddressingMode::Const => MODE_CONST,
        AddressingMode::ConstAddr => MODE_CONST_ADDR,
    }
}

/// The addressing mode that a byte names, if any.
pub open spec fn mode_of_byte(byte: u8) -> Option<AddressingMode> {
    if byte == MODE_REGISTER {
        Some(AddressingMode::Register)
    } else if byte == MODE_REGISTER_ADDR {
        Some(AddressingMode::RegisterAddr)
    } else if byte == MODE_CONST {
        Some(AddressingMode::Const)
    } else if byte == MODE_CONST_ADDR {
        Some(AddressingMode::ConstAddr)
    } else {
        None
    }
}

impl AddressingMode {
    pub fn try_from_byte(byte: u8) -> (r: Option<AddressingMode>)
        ensures
            r == mode_of_byte(byte),
    {
        match byte {
            MODE_REGISTER => Some(AddressingMode::Register),
            MODE_REGISTER_ADDR => Some(AddressingMode::RegisterAddr),
            MODE_CONST => Some(AddressingMode::Const),
            MODE_CONST_ADDR => Some(AddressingMode::ConstAddr),
            _ => None,
        }
    }
}

/// Each addressing mode is named by its byte, and only by it.
pub proof fn lemma_mode_byte_roundtrip(m: AddressingMode, byte: u8)
    ensures
        mode_of_byte(mode_byte(m)) == Some(m),
        mode_of_byte(byte) == Some(m) ==> byte == mode_byte(m),
{
}

impl AsBytes for AddressingMode {
    open spec fn spec_bytes(&self) -> Seq<u8> {
        seq![mode_byte(*self)]
    }

    fn as_bytes(&self) -> (r: Vec<u8>) {
        let b = match self {
            AddressingMode::Register => MODE_REGISTER,
            AddressingMode::RegisterAddr => MODE_REGISTER_ADDR,
            AddressingMode::Const => MODE_CONST,
            AddressingMode::ConstAddr => MODE_CONST_ADDR,
        };
        let r = vec![b];
        assert(r@ =~= seq![b]);
        r
    }
}

impl TryFromBytes for AddressingMode {
    open spec fn spec_from_bytes(b: Seq<u8>) -> Option<(Seq<u8>, AddressingMode)> {
        if b.len() >= 1 {
            match mode_of_byte(b[0]) {
                Some(m) => Some((b.drop_first(), m)),
                None => None,
            }
        } else {
            None
        }
    }

    fn try_from_bytes(bytes: &[u8]) -> (r: Option<(&[u8], AddressingMode)>) {
        match split_first_byte(bytes) {
            Some((b, rest)) => match AddressingMode::try_from_byte(b) {
                Some(m) => Some((rest, m)),
                None => None,
            },
            None => None,
        }
    }

    proof fn lemma_decode_encoded(v: AddressingMode, rest: Seq<u8>) {
        assert((v.spec_bytes() + rest).drop_first() =~= rest);
    }

    proof fn lemma_encode_decoded(b: Seq<u8>) {
        if b.len() >= 1 {
            assert(b =~= seq![b[0]] + b.drop_first());
        }
    }
}

/// Prefixes the encoding of an operand with its addressing-mode byte.
fn with_mode(mode: u8, operand: Vec<u8>) -> (r: Vec<u8>)
    ensures
        r@ == seq![mode] + operand@,
{
    concat(vec![mode], operand)
}

impl AsBytes for WritableTarget {
    open spec fn spec_bytes(&self) -> Seq<u8> {
        match self {
            WritableTarget::Register(r) => seq![MODE_REGISTER] + r.spec_bytes(),
            WritableTarget::RegisterAddress(r) => seq![MODE_REGISTER_ADDR] + r.0.spec_bytes(),
            WritableTarget::ConstantAddress(c) => seq![MODE_CONST_ADDR] + c.0.spec_bytes(),
        }
    }

    fn as_bytes(&self) -> (r: Vec<u8>) {
        match self {
            WritableTarget::Register(r) => with_mode(MODE_REGISTER, r.as_bytes()),
            WritableTarget::RegisterAddress(r) => with_mode(MODE_REGISTER_ADDR, r.0.as_bytes()),
            WritableTarget::ConstantAddress(c) => with_mode(MODE_CONST_ADDR, c.0.as_bytes()),
        }
    }
}

/// Applies `f` to a decoded value.
pub open spec fn decoded_map<A, B>(r: Option<(Seq<u8>, A)>, f: spec_fn(A) -> B) -> Option<(Seq<u8>, B)> {
    match r {
        Some((rest, a)) => Some((rest, f(a))),
        None => None,
    }
}

impl TryFromBytes for WritableTarget {
    /// The mode byte, then the operand it announces; a constant is not writable.
    open spec fn spec_from_bytes(b: Seq<u8>) -> Option<(Seq<u8>, WritableTarget)> {
        match AddressingMode::spec_from_bytes(b) {
            Some((rest, AddressingMode::Register)) => decoded_map(
                Register::spec_from_bytes(rest),
                |r: Register| WritableTarget::Register(r),
            ),
            Some((rest, AddressingMode::ConstAddr)) => decoded_map(
                Constant::spec_from_bytes(rest),
                |c: Constant| WritableTarget::ConstantAddress(Bracketed(c)),
            ),
            Some((rest, AddressingMode::RegisterAddr)) => decoded_map(
                Register::spec_from_bytes(rest),
                |r: Register| WritableTarget::RegisterAddress(Bracketed(r)),
            ),
            _ => None,
        }
    }

    fn try_from_bytes(bytes: &[u8]) -> (r: Option<(&[u8], WritableTarget)>) {
        let (rest, mode) = match AddressingMode::try_from_bytes(bytes) {
            Some(found) => found,
            None => return None,
        };
        match mode {
            AddressingMode::Register => match Register::try_from_bytes(rest) {
                Some((rest, r)) => Some((rest, WritableTarget::Register(r))),
                None => None,
            },
            AddressingMode::ConstAddr => match Constant::try_from_bytes(rest) {
                Some((rest, c)) => Some((rest, WritableTarget::ConstantAddress(Bracketed(c)))),
                None => None,
            },
            AddressingMode::RegisterAddr => match Register::try_from_bytes(rest) {
                Some((rest, r)) => Some((rest, WritableTarget::RegisterAddress(Bracketed(r)))),
                None => None,
            },
            AddressingMode::Const => None,
        }
    }

    proof fn lemma_decode_encoded(v: WritableTarget, rest: Seq<u8>) {
        let b = v.spec_bytes() + rest;
        match v {
            WritableTarget::Register(r) => {
                assert(b.drop_first() =~= r.spec_bytes() + rest);
                Register::lemma_decode_encoded(r, rest);
            },
            WritableTarget::RegisterAddress(r) => {
                assert(b.drop_first() =~= r.0.spec_bytes() + rest);
                Register::lemma_decode_encoded(r.0, rest);
            },
            WritableTarget::ConstantAddress(c) => {
                assert(b.drop_first() =~= c.0.spec_bytes() + rest);
                Constant::lemma_decode_encoded(c.0, rest);
            },
        }
    }

    proof fn lemma_encode_decoded(b: Seq<u8>) {
        if b.len() >= 1 {
            let tail = b.drop_first();
            Register::lemma_encode_decoded(tail);
            Constant::lemma_encode_decoded(tail);
            assert(b =~= seq![b[0]] + tail);
            if let Some((rest, v)) = Self::spec_from_bytes(b) {
                match v {
                    WritableTarget::Register(r) => {
                        assert(b =~= v.spec_bytes() + rest);
                    },
                    WritableTarget::RegisterAddress(r) => {
                        assert(b =~= v.spec_bytes() + rest);
                    },
                    WritableTarget::ConstantAddress(c) => {
                        assert(b =~= v.spec_bytes() + rest);
                    },
                }
            }
        }
    }
}

impl AsBytes for ReadableTarget {
    open spec fn spec_bytes(&self) -> Seq<u8> {
        match self {
            ReadableTarget::Register(r) => seq![MODE_REGISTER] + r.spec_bytes(),
            ReadableTarget::RegisterAddress(r) => seq![MODE_REGISTER_ADDR] + r.0.spec_bytes(),
            ReadableTarget::Constant(c) => seq![MODE_CONST] + c.spec_bytes(),
            ReadableTarget::ConstantAddress(c) => seq![MODE_CONST_ADDR] + c.0.spec_bytes(),
        }
    }

    fn as_bytes(&self) -> (r: Vec<u8>) {
        match self {
            ReadableTarget::Register(r) => with_mode(MODE_REGISTER, r.as_bytes()),
            ReadableTarget::RegisterAddress(r) => with_mode(MODE_REGISTER_ADDR, r.0.as_bytes()),
            ReadableTarget::Constant(c) => with_mode(MODE_CONST, c.as_bytes()),
            ReadableTarget::ConstantAddress(c) => with_mode(MODE_CONST_ADDR, c.0.as_bytes()),
        }
    }
}

impl TryFromBytes for ReadableTarget {
    /// The mode byte, then the operand it announces.
    open spec fn spec_from_bytes(b: Seq<u8>) -> Option<(Seq<u8>, ReadableTarget)> {
        match AddressingMode::spec_from_bytes(b) {
            Some((rest, AddressingMode::Const)) => decoded_map(
                Constant::spec_from_bytes(rest),
                |c: Constant| ReadableTarget::Constant(c),
            ),
            Some((rest, AddressingMode::Register)) => decoded_map(
                Register::spec_from_bytes(rest),
                |r: Register| ReadableTarget::Register(r),
            ),
            Some((rest, AddressingMode::ConstAddr)) => decoded_map(
                Constant::spec_from_bytes(rest),
                |c: Constant| ReadableTarget::ConstantAddress(Bracketed(c)),
            ),
            Some((rest, AddressingMode::RegisterAddr)) => decoded_map(
                Register::spec_from_bytes(rest),
                |r: Register| ReadableTarget::RegisterAddress(Bracketed(r)),
            ),
            None => None,
        }
    }

    fn try_from_bytes(bytes: &[u8]) -> (r: Option<(&[u8], ReadableTarget)>) {
        let (rest, mode) = match AddressingMode::try_from_bytes(bytes) {
            Some(found) => found,
            None => return None,
        };
        match mode {
            AddressingMode::Const => match Constant::try_from_bytes(rest) {
                Some((rest, c)) => Some((rest, ReadableTarget::Constant(c))),
                None => None,
            },
            AddressingMode::Register => match Register::try_from_bytes(rest) {
                Some((rest, r)) => Some((rest, ReadableTarget::Register(r))),
                None => None,
            },
            AddressingMode::ConstAddr => match Constant::try_from_bytes(rest) {
                Some((rest, c)) => Some((rest, ReadableTarget::ConstantAddress(Bracketed(c)))),
                None => None,
            },
            AddressingMode::RegisterAddr => match Register::try_from_bytes(rest) {
                Some((rest, r)) => Some((rest, ReadableTarget::RegisterAddress(Bracketed(r)))),
                None => None,
            },
        }
    }

    proof fn lemma_decode_encoded(v: ReadableTarget, rest: Seq<u8>) {
        let b = v.spec_bytes() + rest;
        match v {
            ReadableTarget::Register(r) => {
                assert(b.drop_first() =~= r.spec_bytes() + rest);
                Register::lemma_decode_encoded(r, rest);
            },
            ReadableTarget::RegisterAddress(r) => {
                assert(b.drop_first() =~= r.0.spec_bytes() + rest);
                Register::lemma_decode_encoded(r.0, rest);
            },
            ReadableTarget::Constant(c) => {
                assert(b.drop_first() =~= c.spec_bytes() + rest);
                Constant::lemma_decode_encoded(c, rest);
            },
            ReadableTarget::ConstantAddress(c) => {
                assert(b.drop_first() =~= c.0.spec_bytes() + rest);
                Constant::lemma_decode_encoded(c.0, rest);
            },
        }
    }

    proof fn lemma_encode_decoded(b: Seq<u8>) {
        if b.len() >= 1 {
            let tail = b.drop_first();
            Register::lemma_encode_decoded(tail);
            Constant::lemma_encode_decoded(tail);
            assert(b =~= seq![b[0]] + tail);
            if let Some((rest, v)) = Self::spec_from_bytes(b) {
                match v {
                    ReadableTarget::Register(r) => {
                        assert(b =~= v.spec_bytes() + rest);
                    },
                    ReadableTarget::RegisterAddress(r) => {
                        assert(b =~= v.spec_bytes() + rest);
                    },
                    ReadableTarget::Constant(c) => {
                        assert(b =~= v.spec_bytes() + rest);
                    },
                    ReadableTarget::ConstantAddress(c) => {
                        assert(b =~= v.spec_bytes() + rest);
                    },
                }
            }
        }
    }
}

impl AsBytes for Move {
    open spec fn spec_bytes(&self) -> Seq<u8> {
        seq![OP_MOVE] + self.from.spec_bytes() + self.to.spec_bytes()
    }

    fn as_bytes(&self) -> (r: Vec<u8>) {
        concat(with_mode(OP_MOVE, self.from.as_bytes()), self.to.as_bytes())
    }
}

impl TryFromBytes for Move {
    /// The `mov` opcode, the source, then the destination.
    open spec fn spec_from_bytes(b: Seq<u8>) -> Option<(Seq<u8>, Move)> {
        if b.len() >= 1 && b[0] == OP_MOVE {
            match ReadableTarget::spec_from_bytes(b.drop_first()) {
                Some((rest, from)) => match WritableTarget::spec_from_bytes(rest) {
                    Some((rest, to)) => Some((rest, Move { from, to })),
                    None => None,
                },
                None => None,
            }
        } else {
            None
        }
    }

    fn try_from_bytes(bytes: &[u8]) -> (r: Option<(&[u8], Move)>) {
        let rest = match split_first_byte(bytes) {
            Some((op, rest)) => if op == OP_MOVE {
                rest
            } else {
                return None;
            },
            None => return None,
        };
        let (rest, from) = match ReadableTarget::try_from_bytes(rest) {
            Some(found) => found,
            None => return None,
        };
        match WritableTarget::try_from_bytes(rest) {
            Some((rest, to)) => Some((rest, Move { from, to })),
            None => None,
        }
    }

    proof fn lemma_decode_encoded(v: Move, rest: Seq<u8>) {
        let b = v.spec_bytes() + rest;
        assert(b.drop_first() =~= v.from.spec_bytes() + (v.to.spec_bytes() + rest));
        ReadableTarget::lemma_decode_encoded(v.from, v.to.spec_bytes() + rest);
        WritableTarget::lemma_decode_encoded(v.to, rest);
    }

    proof fn lemma_encode_decoded(b: Seq<u8>) {
        if b.len() >= 1 && b[0] == OP_MOVE {
            let tail = b.drop_first();
            ReadableTarget::lemma_encode_decoded(tail);
            if let Some((rest, from)) = ReadableTarget::spec_from_bytes(tail) {
                WritableTarget::lemma_encode_decoded(rest);
                if let Some((rest2, to)) = WritableTarget::spec_from_bytes(rest) {
                    let m = Move { from, to };
                    assert(tail == from.spec_bytes() + rest);
                    assert(rest == to.spec_bytes() + rest2);
                    assert(b =~= seq![b[0]] + tail);
                    assert(m.spec_bytes() + rest2 =~= seq![OP_MOVE] + (from.spec_bytes() + (
                    to.spec_bytes() + rest2)));
                }
            }
        }
    }
}

impl AsBytes for Jump {
    open spec fn spec_bytes(&self) -> Seq<u8> {
        seq![OP_JUMP] + self.to.spec_bytes()
    }

    fn as_bytes(&self) -> (r: Vec<u8>) {
        with_mode(OP_JUMP, self.to.as_bytes())
    }
}

impl TryFromBytes for Jump {
    /// The `jmp` opcode, then the target.
    open spec fn spec_from_bytes(b: Seq<u8>) -> Option<(Seq<u8>, Jump)> {
        if b.len() >= 1 && b[0] == OP_JUMP {
            decoded_map(ReadableTarget::spec_from_bytes(b.drop_first()), |c: ReadableTarget| Jump { to: c })
        } else {
            None
        }
    }

    fn try_from_bytes(bytes: &[u8]) -> (r: Option<(&[u8], Jump)>) {
        let rest = match split_first_byte(bytes) {
            Some((op, rest)) => if op == OP_JUMP {
                rest
            } else {
                return None;
            },
            None => return None,
        };
        match ReadableTarget::try_from_bytes(rest) {
            Some((rest, to)) => Some((rest, Jump { to })),
            None => None,
        }
    }

    proof fn lemma_decode_encoded(v: Jump, rest: Seq<u8>) {
        let b = v.spec_bytes() + rest;
        assert(b.drop_first() =~= v.to.spec_bytes() + rest);
        ReadableTarget::lemma_decode_encoded(v.to, rest);
    }

    proof fn lemma_encode_decoded(b: Seq<u8>) {
        if b.len() >= 1 && b[0] == OP_JUMP {
            let tail = b.drop_first();
            ReadableTarget::lemma_encode_decoded(tail);
            if let Some((rest, to)) = ReadableTarget::spec_from_bytes(tail) {
                assert(b =~= seq![OP_JUMP] + to.spec_bytes() + rest);
            }
        }
    }
}

impl AsBytes for Instruction {
    open spec fn spec_bytes(&self) -> Seq<u8> {
        match self {
            Instruction::Move(m) => m.spec_bytes(),
            Instruction::Jump(j) => j.spec_bytes(),
        }
    }

    fn as_bytes(&self) -> (r: Vec<u8>) {
        match self {
            Instruction::Move(m) => m.as_bytes(),
            Instruction::Jump(j) => j.as_bytes(),
        }
    }
}

/// The machine code of a program: the encodings of its instructions, in order.
pub open spec fn lines_bytes(lines: Seq<ProgramLine>) -> Seq<u8>
    decreases lines.len(),
{
    if lines.len() == 0 {
        Seq::empty()
    } else {
        lines_bytes(lines.drop_last()) + match lines.last() {
            ProgramLine::Instruction(c) => c.value.spec_bytes(),
            ProgramLine::Label(_) => Seq::empty(),
        }
    }
}

/// The machine code of a sequence of read lines.
pub open spec fn items_bytes(items: Seq<(Instruction, Option<Seq<char>>)>) -> Seq<u8>
    decreases items.len(),
{
    if items.len() == 0 {
        Seq::empty()
    } else {
        items_bytes(items.drop_last()) + items.last().0.spec_bytes()
    }
}

proof fn lemma_lines_items_bytes(lines: Seq<ProgramLine>)
    requires
        all_instructions(lines),
    ensures
        lines_bytes(lines) == items_bytes(lines_view(lines)),
    decreases lines.len(),
{
    if lines.len() > 0 {
        assert(lines_view(lines.drop_last()) =~= lines_view(lines).drop_last());
        assert(lines.last() == lines[lines.len() - 1]);
        lemma_lines_items_bytes(lines.drop_last());
    }
}

impl Program {
    /// The machine code of the program: its instructions' encodings, in order; labels take no bytes.
    pub fn compile(self) -> (r: Vec<u8>)
        ensures
            r@ == lines_bytes(self.lines@),
    {
        let mut out: Vec<u8> = Vec::new();
        let lines = self.lines;
        let mut i: usize = 0;
        while i < lines.len()
            invariant
                i <= lines@.len(),
                out@ == lines_bytes(lines@.subrange(0, i as int)),
            decreases lines@.len() - i,
        {
            proof {
                assert(lines@.subrange(0, i + 1).drop_last() =~= lines@.subrange(0, i as int));
            }
            match &lines[i] {
                ProgramLine::Instruction(c) => {
                    let bytes = c.value.as_bytes();
                    out = concat(out, bytes);
                },
                ProgramLine::Label(_) => {},
            }
            i = i + 1;
        }
        assert(lines@.subrange(0, lines@.len() as int) =~= lines@);
        out
    }
}

/// Compiles program text to machine code: `None` when the text cannot be read
/// (which happens only when a line needs more input than the text holds);
/// otherwise the encodings of the lines read, in order. Reading stops at the
/// first line that is not an instruction; what follows is ignored.
pub fn compile_to_bytes(input: &str) -> (r: Option<Vec<u8>>)
    ensures
        (match spec_program(input@) {
            Ok((_, items)) => r matches Some(b) && b@ == items_bytes(items),
            Err(_) => r is None,
        }),
{
    match Program::parse(input) {
        Ok((_, program)) => {
            proof {
                lemma_lines_items_bytes(program.lines@);
            }
            Some(program.compile())
        },
        Err(_) => None,
    }
}

/// Pads `bytes` with zeros to exactly `N` bytes; `None` when there are more than `N`.
pub fn fill_to<const N: usize>(bytes: &[u8]) -> (r: Option<[u8; N]>)
    ensures
        (match r {
            Some(a) => bytes@.len() <= N && a@ == bytes@ + Seq::new(
                (N - bytes@.len()) as nat,
                |_i: int| 0u8,
            ),
            None => bytes@.len() > N,
        }),
{
    if N < bytes.len() {
        return None;
    }
    let mut out = [0u8; N];
    let mut i: usize = 0;
    while i < bytes.len()
        invariant
            i <= bytes@.len() <= N,
            out@.len() == N,
            forall|k: int| 0 <= k < i ==> out@[k] == bytes@[k],
            forall|k: int| i <= k < N ==> out@[k] == 0u8,
        decreases bytes@.len() - i,
    {
        out[i] = bytes[i];
        i = i + 1;
    }
    assert(out@ =~= bytes@ + Seq::new((N - bytes@.len()) as nat, |_i: int| 0u8));
    Some(out)
}

/// `s2` holds the text `s1` from position `d` on, followed by the end of
/// `s2` or by a line feed.
pub open spec fn holds_line_at(s1: Seq<char>, s2: Seq<char>, d: int) -> bool {
    &&& 0 <= d
    &&& s1.len() + d <= s2.len()
    &&& forall|i: int| 0 <= i < s1.len() ==> #[trigger] s2[i + d] == s1[i]
    &&& (s1.len() + d == s2.len() || s2[s1.len() + d] == '\n')
}

/// A parse outcome with its end position moved by `d`.
pub open spec fn shifted<T>(r: Result<(int, T), ParseFailure>, d: int) -> Result<(int, T), ParseFailure> {
    match r {
        Ok((p, v)) => Ok((p + d, v)),
        Err(e) => Err(e),
    }
}

/// A run of characters ends at the same place in a line and in a text that holds it.
proof fn lemma_run_end_held(s1: Seq<char>, s2: Seq<char>, d: int, i: int, class: CharClass)
    requires
        holds_line_at(s1, s2, d),
        0 <= i <= s1.len(),
    ensures
        run_end(s2, i + d, class) == run_end(s1, i, class) + d,
    decreases s1.len() - i,
{
    if i < s1.len() {
        assert(s2[i + d] == s1[i]);
        lemma_run_end_held(s1, s2, d, i + 1, class);
    }
}

proof fn lemma_subrange_held(s1: Seq<char>, s2: Seq<char>, d: int, i: int, j: int)
    requires
        holds_line_at(s1, s2, d),
        0 <= i <= j <= s1.len(),
    ensures
        s2.subrange(i + d, j + d) == s1.subrange(i, j),
{
    assert(s2.subrange(i + d, j + d) =~= s1.subrange(i, j)) by {
        assert forall|k: int| 0 <= k < j - i implies s2.subrange(i + d, j + d)[k] == s1.subrange(i, j)[k] by {
            assert(s2[(i + k) + d] == s1[i + k]);
        }
    }
}

proof fn lemma_decimal_held(s1: Seq<char>, s2: Seq<char>, d: int, pos: int, max: nat)
    requires
        holds_line_at(s1, s2, d),
        0 <= pos <= s1.len(),
    ensures
        spec_decimal(s2, pos + d, max) == shifted(spec_decimal(s1, pos, max), d),
        spec_decimal(s1, pos, max) matches Ok((p, _)) ==> pos <= p <= s1.len(),
        spec_decimal(s1, pos, max) != Err::<(int, nat), ParseFailure>(ParseFailure::Incomplete),
{
    lemma_run_end_held(s1, s2, d, pos, CharClass::Decimal);
    lemma_run_end(s1, pos, CharClass::Decimal);
    let e = run_end(s1, pos, CharClass::Decimal);
    lemma_subrange_held(s1, s2, d, pos, e);
}

proof fn lemma_hex_held(s1: Seq<char>, s2: Seq<char>, d: int, pos: int)
    requires
        holds_line_at(s1, s2, d),
        0 <= pos <= s1.len(),
        spec_hex_u16(s1, pos) != Err::<(int, nat), ParseFailure>(ParseFailure::Incomplete),
    ensures
        spec_hex_u16(s2, pos + d) == shifted(spec_hex_u16(s1, pos), d),
        spec_hex_u16(s1, pos) matches Ok((p, _)) ==> pos <= p <= s1.len(),
{
    if pos < s1.len() {
        assert(s2[pos + d] == s1[pos]);
        if s1[pos] == '#' {
            lemma_run_end_held(s1, s2, d, pos + 1, CharClass::Hex);
            lemma_run_end(s1, pos + 1, CharClass::Hex);
            let e = run_end(s1, pos + 1, CharClass::Hex);
            if e - (pos + 1) >= 4 && pos + 1 + 4 < s1.len() {
                lemma_subrange_held(s1, s2, d, pos + 1, pos + 5);
            }
        }
    }
}

proof fn lemma_constant_held(s1: Seq<char>, s2: Seq<char>, d: int, pos: int)
    requires
        holds_line_at(s1, s2, d),
        0 <= pos <= s1.len(),
        Constant::spec_parse_at(s1, pos) != Err::<(int, Constant), ParseFailure>(ParseFailure::Incomplete),
    ensures
        Constant::spec_parse_at(s2, pos + d) == shifted(Constant::spec_parse_at(s1, pos), d),
        Constant::spec_parse_at(s1, pos) matches Ok((p, _)) ==> pos <= p <= s1.len(),
{
    lemma_hex_held(s1, s2, d, pos);
    lemma_decimal_held(s1, s2, d, pos, 0xffff);
}

proof fn lemma_register_held(s1: Seq<char>, s2: Seq<char>, d: int, pos: int)
    requires
        holds_line_at(s1, s2, d),
        0 <= pos <= s1.len(),
    ensures
        Register::spec_parse_at(s2, pos + d) == shifted(Register::spec_parse_at(s1, pos), d),
        Register::spec_parse_at(s1, pos) matches Ok((p, _)) ==> pos <= p <= s1.len(),
        Register::spec_parse_at(s1, pos) != Err::<(int, Register), ParseFailure>(ParseFailure::Incomplete),
{
    if pos < s1.len() {
        assert(s2[pos + d] == s1[pos]);
        if s1[pos] == 'r' {
            lemma_decimal_held(s1, s2, d, pos + 1, 255);
        }
    }
}

proof fn lemma_bracketed_register_held(s1: Seq<char>, s2: Seq<char>, d: int, pos: int)
    requires
        holds_line_at(s1, s2, d),
        0 <= pos <= s1.len(),
    ensures
        Bracketed::<Register>::spec_parse_at(s2, pos + d) == shifted(Bracketed::<Register>::spec_parse_at(s1, pos), d),
        Bracketed::<Register>::spec_parse_at(s1, pos) matches Ok((p, _)) ==> pos <= p <= s1.len(),
        Bracketed::<Register>::spec_parse_at(s1, pos) != Err::<(int, Bracketed<Register>), ParseFailure>(ParseFailure::Incomplete),
{
    if pos < s1.len() {
        assert(s2[pos + d] == s1[pos]);
        if s1[pos] == '[' {
            lemma_register_held(s1, s2, d, pos + 1);
            if let Ok((p, _)) = Register::spec_parse_at(s1, pos + 1) {
                if p < s1.len() {
                    assert(s2[p + d] == s1[p]);
                }
            }
        }
    }
}

proof fn lemma_bracketed_constant_held(s1: Seq<char>, s2: Seq<char>, d: int, pos: int)
    requires
        holds_line_at(s1, s2, d),
        0 <= pos <= s1.len(),
        Bracketed::<Constant>::spec_parse_at(s1, pos) != Err::<(int, Bracketed<Constant>), ParseFailure>(ParseFailure::Incomplete),
    ensures
        Bracketed::<Constant>::spec_parse_at(s2, pos + d) == shifted(Bracketed::<Constant>::spec_parse_at(s1, pos), d),
        Bracketed::<Constant>::spec_parse_at(s1, pos) matches Ok((p, _)) ==> pos <= p <= s1.len(),
{
    if pos < s1.len() {
        assert(s2[pos + d] == s1[pos]);
        if s1[pos] == '[' {
            lemma_constant_held(s1, s2, d, pos + 1);
            if let Ok((p, _)) = Constant::spec_parse_at(s1, pos + 1) {
                if p < s1.len() {
                    assert(s2[p + d] == s1[p]);
                }
            }
        }
    }
}

proof fn lemma_writable_held(s1: Seq<char>, s2: Seq<char>, d: int, pos: int)
    requires
        holds_line_at(s1, s2, d),
        0 <= pos <= s1.len(),
        WritableTarget::spec_parse_at(s1, pos) != Err::<(int, WritableTarget), ParseFailure>(ParseFailure::Incomplete),
    ensures
        WritableTarget::spec_parse_at(s2, pos + d) == shifted(WritableTarget::spec_parse_at(s1, pos), d),
        WritableTarget::spec_parse_at(s1, pos) matches Ok((p, _)) ==> pos <= p <= s1.len(),
{
    lemma_register_held(s1, s2, d, pos);
    lemma_bracketed_register_held(s1, s2, d, pos);
    if Register::spec_parse_at(s1, pos) is Err && Bracketed::<Register>::spec_parse_at(s1, pos) is Err {
        lemma_bracketed_constant_held(s1, s2, d, pos);
    }
}

proof fn lemma_readable_held(s1: Seq<char>, s2: Seq<char>, d: int, pos: int)
    requires
        holds_line_at(s1, s2, d),
        0 <= pos <= s1.len(),
        ReadableTarget::spec_parse_at(s1, pos) != Err::<(int, ReadableTarget), ParseFailure>(ParseFailure::Incomplete),
    ensures
        ReadableTarget::spec_parse_at(s2, pos + d) == shifted(ReadableTarget::spec_parse_at(s1, pos), d),
        ReadableTarget::spec_parse_at(s1, pos) matches Ok((p, _)) ==> pos <= p <= s1.len(),
{
    lemma_register_held(s1, s2, d, pos);
    lemma_bracketed_register_held(s1, s2, d, pos);
    if Register::spec_parse_at(s1, pos) is Err && Bracketed::<Register>::spec_parse_at(s1, pos) is Err {
        lemma_constant_held(s1, s2, d, pos);
        if Constant::spec_parse_at(s1, pos) is Err {
            lemma_bracketed_constant_held(s1, s2, d, pos);
        }
    }
}

proof fn lemma_word_held(s1: Seq<char>, s2: Seq<char>, d: int, pos: int, a: char, b: char, c: char)
    requires
        holds_line_at(s1, s2, d),
        0 <= pos <= s1.len(),
        a != '\n',
        b != '\n',
        c != '\n',
    ensures
        has_word_at(s2, pos + d, a, b, c) == has_word_at(s1, pos, a, b, c),
{
    if pos < s1.len() {
        assert(s2[pos + d] == s1[pos]);
    }
    if pos + 1 < s1.len() {
        assert(s2[pos + 1 + d] == s1[pos + 1]);
    }
    if pos + 2 < s1.len() {
        assert(s2[pos + 2 + d] == s1[pos + 2]);
    }
}

proof fn lemma_spaces_held(s1: Seq<char>, s2: Seq<char>, d: int, pos: int)
    requires
        holds_line_at(s1, s2, d),
        0 <= pos <= s1.len(),
    ensures
        spaces_end(s2, pos + d) == spaces_end(s1, pos) + d,
        pos <= spaces_end(s1, pos) <= s1.len(),
{
    lemma_run_end_held(s1, s2, d, pos, CharClass::Space);
    lemma_run_end(s1, pos, CharClass::Space);
}

proof fn lemma_move_held(s1: Seq<char>, s2: Seq<char>, d: int, pos: int)
    requires
        holds_line_at(s1, s2, d),
        0 <= pos <= s1.len(),
        Move::spec_parse_at(s1, pos) != Err::<(int, Move), ParseFailure>(ParseFailure::Incomplete),
    ensures
        Move::spec_parse_at(s2, pos + d) == shifted(Move::spec_parse_at(s1, pos), d),
        Move::spec_parse_at(s1, pos) matches Ok((p, _)) ==> pos <= p <= s1.len(),
{
    lemma_word_held(s1, s2, d, pos, 'm', 'o', 'v');
    if has_word_at(s1, pos, 'm', 'o', 'v') {
        lemma_spaces_held(s1, s2, d, pos + 3);
        let a = spaces_end(s1, pos + 3);
        if a > pos + 3 {
            lemma_readable_held(s1, s2, d, a);
            if let Ok((p, _)) = ReadableTarget::spec_parse_at(s1, a) {
                lemma_spaces_held(s1, s2, d, p);
                let b = spaces_end(s1, p);
                if b > p {
                    lemma_writable_held(s1, s2, d, b);
                    if let Ok((q, _)) = WritableTarget::spec_parse_at(s1, b) {
                        lemma_spaces_held(s1, s2, d, q);
                    }
                }
            }
        }
    }
}

proof fn lemma_jump_held(s1: Seq<char>, s2: Seq<char>, d: int, pos: int)
    requires
        holds_line_at(s1, s2, d),
        0 <= pos <= s1.len(),
        Jump::spec_parse_at(s1, pos) != Err::<(int, Jump), ParseFailure>(ParseFailure::Incomplete),
    ensures
        Jump::spec_parse_at(s2, pos + d) == shifted(Jump::spec_parse_at(s1, pos), d),
        Jump::spec_parse_at(s1, pos) matches Ok((p, _)) ==> pos <= p <= s1.len(),
{
    lemma_word_held(s1, s2, d, pos, 'j', 'm', 'p');
    if has_word_at(s1, pos, 'j', 'm', 'p') {
        lemma_spaces_held(s1, s2, d, pos + 3);
        let a = spaces_end(s1, pos + 3);
        if a > pos + 3 {
            lemma_readable_held(s1, s2, d, a);
            if let Ok((p, _)) = ReadableTarget::spec_parse_at(s1, a) {
                lemma_spaces_held(s1, s2, d, p);
            }
        }
    }
}

proof fn lemma_instruction_held(s1: Seq<char>, s2: Seq<char>, d: int, pos: int)
    requires
        holds_line_at(s1, s2, d),
        0 <= pos <= s1.len(),
        Instruction::spec_parse_at(s1, pos) != Err::<(int, Instruction), ParseFailure>(ParseFailure::Incomplete),
    ensures
        Instruction::spec_parse_at(s2, pos + d) == shifted(Instruction::spec_parse_at(s1, pos), d),
        Instruction::spec_parse_at(s1, pos) matches Ok((p, _)) ==> pos <= p <= s1.len(),
{
    lemma_move_held(s1, s2, d, pos);
    if Move::spec_parse_at(s1, pos) == Err::<(int, Move), ParseFailure>(ParseFailure::Mismatch) {
        lemma_jump_held(s1, s2, d, pos);
    }
}

proof fn lemma_line_held(s1: Seq<char>, s2: Seq<char>, d: int, pos: int)
    requires
        holds_line_at(s1, s2, d),
        0 <= pos <= s1.len(),
        spec_line(s1, pos) is Ok,
    ensures
        spec_line(s2, pos + d) == shifted(spec_line(s1, pos), d),
{
    lemma_instruction_held(s1, s2, d, pos);
    if let Ok((p, _)) = Instruction::spec_parse_at(s1, pos) {
        lemma_spaces_held(s1, s2, d, p);
        let q = spaces_end(s1, p);
        if q < s1.len() {
            assert(s2[q + d] == s1[q]);
        }
        if 0 <= q < s1.len() && s1[q] == '#' {
            lemma_run_end_held(s1, s2, d, q + 1, CharClass::LineContent);
            lemma_run_end(s1, q + 1, CharClass::LineContent);
            let e = run_end(s1, q + 1, CharClass::LineContent);
            lemma_subrange_held(s1, s2, d, q + 1, e);
            lemma_spaces_held(s1, s2, d, e);
        } else {
            lemma_spaces_held(s1, s2, d, p);
        }
    }
}

/// A text that is exactly one instruction line is a program of that one line.
pub proof fn lemma_one_line_program(a: Seq<char>, la: (Instruction, Option<Seq<char>>))
    requires
        spec_item(a, 0) == Ok::<(int, (Instruction, Option<Seq<char>>)), ParseFailure>((a.len() as int, la)),
    ensures
        spec_program(a) == Ok::<(int, Seq<(Instruction, Option<Seq<char>>)>), ParseFailure>((a.len() as int, seq![la])),
{
}

/// A line that reads whole on its own reads the same where a text holds it.
proof fn lemma_item_held(s1: Seq<char>, s2: Seq<char>, d: int, l: (Instruction, Option<Seq<char>>))
    requires
        holds_line_at(s1, s2, d),
        spec_item(s1, 0) == Ok::<(int, (Instruction, Option<Seq<char>>)), ParseFailure>((s1.len() as int, l)),
    ensures
        spec_item(s2, d) == Ok::<(int, (Instruction, Option<Seq<char>>)), ParseFailure>((s1.len() + d, l)),
{
    lemma_spaces_held(s1, s2, d, 0);
    lemma_line_held(s1, s2, d, spaces_end(s1, 0));
}

proof fn lemma_join_holds(a: Seq<char>, b: Seq<char>)
    ensures
        holds_line_at(a, a + seq!['\n'] + b, 0),
        holds_line_at(b, a + seq!['\n'] + b, a.len() as int + 1),
{
    let t = a + seq!['\n'] + b;
    let len_a = a.len() as int;
    assert forall|i: int| 0 <= i < a.len() implies #[trigger] t[i + 0] == a[i] by {}
    assert(t[len_a] == '\n');
    assert forall|i: int| 0 <= i < b.len() implies #[trigger] t[i + (len_a + 1)] == b[i] by {}
}

proof fn lemma_two_items_bytes(la: (Instruction, Option<Seq<char>>), lb: (Instruction, Option<Seq<char>>))
    ensures
        items_bytes(seq![la, lb]) == items_bytes(seq![la]) + items_bytes(seq![lb]),
{
    assert(seq![la, lb].drop_last() =~= seq![la]);
    assert(seq![la].drop_last() =~= Seq::<(Instruction, Option<Seq<char>>)>::empty());
    assert(seq![lb].drop_last() =~= Seq::<(Instruction, Option<Seq<char>>)>::empty());
    assert(items_bytes(Seq::<(Instruction, Option<Seq<char>>)>::empty()) =~= Seq::<u8>::empty());
}

/// Two lines joined by a line feed compile to the bytes of the first line
/// followed by those of the second: where each of `a` and `b` is exactly one
/// instruction line (with optional spaces and comment), each is a program of
/// that one line, and `a`, a line feed and `b` is the program of both lines,
/// whose bytes are those of `a` followed by those of `b`.
pub proof fn lemma_two_lines_compile_in_order(
    a: Seq<char>,
    b: Seq<char>,
    la: (Instruction, Option<Seq<char>>),
    lb: (Instruction, Option<Seq<char>>),
)
    requires
        spec_item(a, 0) == Ok::<(int, (Instruction, Option<Seq<char>>)), ParseFailure>((a.len() as int, la)),
        spec_item(b, 0) == Ok::<(int, (Instruction, Option<Seq<char>>)), ParseFailure>((b.len() as int, lb)),
    ensures
        spec_program(a + seq!['\n'] + b) == Ok::<(int, Seq<(Instruction, Option<Seq<char>>)>), ParseFailure>(
            ((a.len() + 1 + b.len()) as int, seq![la, lb]),
        ),
        spec_program(a) == Ok::<(int, Seq<(Instruction, Option<Seq<char>>)>), ParseFailure>((a.len() as int, seq![la])),
        spec_program(b) == Ok::<(int, Seq<(Instruction, Option<Seq<char>>)>), ParseFailure>((b.len() as int, seq![lb])),
        items_bytes(seq![la, lb]) == items_bytes(seq![la]) + items_bytes(seq![lb]),
{
    lemma_one_line_program(a, la);
    lemma_one_line_program(b, lb);
    let t = a + seq!['\n'] + b;
    let len_a = a.len() as int;
    let n = t.len() as int;
    lemma_join_holds(a, b);
    lemma_item_held(a, t, 0, la);
    lemma_item_held(b, t, len_a + 1, lb);
    assert(t[len_a] == '\n');
    assert(seq![la].push(lb) =~= seq![la, lb]);
    assert(spec_more_lines(t, n, seq![la, lb]) == Ok::<(int, Seq<(Instruction, Option<Seq<char>>)>), ParseFailure>(
        (n, seq![la, lb]),
    ));
    assert(spec_more_lines(t, len_a, seq![la]) == spec_more_lines(t, n, seq![la, lb]));
    lemma_two_items_bytes(la, lb);
}

} // verus!
