//! Character-level scanning used by the assembler: runs of spaces and digits,
//! literal prefixes, and the numeric value of a run of digits.

use vstd::prelude::*;

verus! {

/// How a low-level parser gave up.
///
/// `Mismatch` means the input does not have the expected shape at that point;
/// `Incomplete` means a fixed-width field reached the end of the input and more
/// characters would have been needed to decide.
#[derive(Clone, Copy, PartialEq, Eq, Debug)]
pub enum ParseFailure {
    Mismatch,
    Incomplete,
}

/// The classes of characters that the scanners recognise.
#[derive(Clone, Copy, PartialEq, Eq, Debug)]
pub enum CharClass {
    /// A space or a horizontal tab.
    Space,
    /// `0` to `9`.
    Decimal,
    /// `0` to `9`, `a` to `f`, `A` to `F`.
    Hex,
    /// `0` or `1`.
    Binary,
    /// Anything but a line feed.
    LineContent,
}

pub open spec fn in_class(class: CharClass, c: char) -> bool {
    match class {
        CharClass::Space => c == ' ' || c == '\t',
        CharClass::Decimal => '0' <= c <= '9',
        CharClass::Hex => ('0' <= c <= '9') || ('a' <= c <= 'f') || ('A' <= c <= 'F'),
        CharClass::Binary => c == '0' || c == '1',
        CharClass::LineContent => c != '\n',
    }
}

/// The position just after the longest run of `class` characters that starts at `i`.
pub open spec fn run_end(s: Seq<char>, i: int, class: CharClass) -> int
    decreases s.len() - i,
{
    if 0 <= i < s.len() && in_class(class, s[i]) {
        run_end(s, i + 1, class)
    } else {
        i
    }
}

/// The numeric value of a digit character.
pub open spec fn digit_of(c: char) -> nat {
    if '0' <= c <= '9' {
        (c as int - '0' as int) as nat
    } else if 'a' <= c <= 'f' {
        (c as int - 'a' as int + 10) as nat
    } else {
        (c as int - 'A' as int + 10) as nat
    }
}

/// The value of a sequence of digits in the given radix, most significant first.
pub open spec fn digits_value(ds: Seq<char>, radix: nat) -> nat
    decreases ds.len(),
{
    if ds.len() == 0 {
        0
    } else {
        digits_value(ds.drop_last(), radix) * radix + digit_of(ds.last())
    }
}

/// `run_end` stays within the text and stops at the first character outside the class.
pub proof fn lemma_run_end(s: Seq<char>, i: int, class: CharClass)
    requires
        0 <= i <= s.len(),
    ensures
        i <= run_end(s, i, class) <= s.len(),
        forall|k: int| i <= k < run_end(s, i, class) ==> in_class(class, #[trigger] s[k]),
        run_end(s, i, class) < s.len() ==> !in_class(class, s[run_end(s, i, class)]),
    decreases s.len() - i,
{
    if i < s.len() && in_class(class, s[i]) {
        lemma_run_end(s, i + 1, class);
    }
}

/// Scanning within a suffix of `s` that starts at `i` finds the same run end.
pub proof fn lemma_run_end_within(s: Seq<char>, i: int, j: int, class: CharClass)
    requires
        0 <= i <= j <= s.len(),
    ensures
        run_end(s.subrange(i, s.len() as int), j - i, class) + i == run_end(s, j, class),
    decreases s.len() - j,
{
    let t = s.subrange(i, s.len() as int);
    if j < s.len() {
        assert(t[j - i] == s[j]);
        if in_class(class, s[j]) {
            lemma_run_end_within(s, i, j + 1, class);
        }
    }
}

/// Every run end computed from a point inside the run is the same.
proof fn lemma_run_end_step(s: Seq<char>, i: int, j: int, class: CharClass)
    requires
        0 <= i <= j <= run_end(s, i, class),
        i <= s.len(),
    ensures
        run_end(s, j, class) == run_end(s, i, class),
    decreases j - i,
{
    if i < j {
        lemma_run_end(s, i, class);
        assert(in_class(class, s[i]));
        lemma_run_end_step(s, i + 1, j, class);
    }
}

/// The value of digits in a radix is below radix^len.
pub proof fn lemma_digits_value_bound(ds: Seq<char>, radix: nat)
    requires
        radix > 0,
        forall|k: int| 0 <= k < ds.len() ==> digit_of(#[trigger] ds[k]) < radix,
    ensures
        digits_value(ds, radix) < vstd::arithmetic::power::pow(radix as int, ds.len()),
    decreases ds.len(),
{
    vstd::arithmetic::power::lemma_pow_positive(radix as int, ds.len());
    if ds.len() > 0 {
        let prefix = ds.drop_last();
        lemma_digits_value_bound(prefix, radix);
        vstd::arithmetic::power::lemma_pow_adds(radix as int, prefix.len(), 1);
        vstd::arithmetic::power::lemma_pow1(radix as int);
        let v = digits_value(prefix, radix);
        let p = vstd::arithmetic::power::pow(radix as int, prefix.len());
        let d = digit_of(ds.last());
        assert(v * radix + d < p * radix) by (nonlinear_arith)
            requires
                v < p,
                d < radix,
        {
            assert(v + 1 <= p);
            assert((v + 1) * radix <= p * radix);
        }
    }
}

pub fn char_in_class(c: char, class: CharClass) -> (r: bool)
    ensures
        r == in_class(class, c),
{
    match class {
        CharClass::Space => c == ' ' || c == '\t',
        CharClass::Decimal => '0' <= c && c <= '9',
        CharClass::Hex => ('0' <= c && c <= '9') || ('a' <= c && c <= 'f') || ('A' <= c && c
            <= 'F'),
        CharClass::Binary => c == '0' || c == '1',
        CharClass::LineContent => c != '\n',
    }
}

/// Returns the end of the run of `class` characters that starts at `i`.
pub fn scan_run(s: &Vec<char>, i: usize, class: CharClass) -> (r: usize)
    requires
        i <= s@.len(),
    ensures
        r as int == run_end(s@, i as int, class),
        i <= r <= s@.len(),
{
    let mut j = i;
    proof {
        lemma_run_end(s@, i as int, class);
    }
    while j < s.len() && char_in_class(s[j], class)
        invariant
            i <= j <= run_end(s@, i as int, class),
            run_end(s@, i as int, class) <= s@.len(),
            run_end(s@, j as int, class) == run_end(s@, i as int, class),
        decreases s@.len() - j,
    {
        proof {
            lemma_run_end(s@, j as int, class);
        }
        j = j + 1;
        proof {
            lemma_run_end_step(s@, i as int, j as int, class);
        }
    }
    proof {
        lemma_run_end(s@, j as int, class);
    }
    j
}

fn digit_value(c: char) -> (r: u32)
    requires
        in_class(CharClass::Hex, c),
    ensures
        r == digit_of(c),
        r < 16,
{
    if '0' <= c && c <= '9' {
        (c as u32) - ('0' as u32)
    } else if 'a' <= c && c <= 'f' {
        (c as u32) - ('a' as u32) + 10
    } else {
        (c as u32) - ('A' as u32) + 10
    }
}

/// The value of the digits `s[from..to]`, or `cap` when that value is `cap` or more.
pub fn digits_value_capped(s: &Vec<char>, from: usize, to: usize, radix: u32, cap: u32) -> (r: u32)
    requires
        from <= to <= s@.len(),
        2 <= radix <= 16,
        cap <= 0x10000,
        forall|k: int| from <= k < to ==> in_class(CharClass::Hex, #[trigger] s@[k]),
        forall|k: int| from <= k < to ==> digit_of(#[trigger] s@[k]) < radix,
    ensures
        r as int == if digits_value(s@.subrange(from as int, to as int), radix as nat) < cap {
            digits_value(s@.subrange(from as int, to as int), radix as nat) as int
        } else {
            cap as int
        },
{
    let mut acc: u32 = 0;
    let mut k = from;
    while k < to
        invariant
            from <= k <= to <= s@.len(),
            2 <= radix <= 16,
            cap <= 0x10000,
            acc <= cap,
            forall|j: int| from <= j < to ==> in_class(CharClass::Hex, #[trigger] s@[j]),
            forall|j: int| from <= j < to ==> digit_of(#[trigger] s@[j]) < radix,
            acc as int == if digits_value(s@.subrange(from as int, k as int), radix as nat) < cap {
                digits_value(s@.subrange(from as int, k as int), radix as nat) as int
            } else {
                cap as int
            },
        decreases to - k,
    {
        let d = digit_value(s[k]);
        let ghost prev = digits_value(s@.subrange(from as int, k as int), radix as nat);
        proof {
            assert(s@.subrange(from as int, k + 1).drop_last() =~= s@.subrange(from as int, k as int));
            assert(s@.subrange(from as int, k + 1).last() == s@[k as int]);
        }
        let ghost next = digits_value(s@.subrange(from as int, k + 1), radix as nat);
        assert(next == prev * radix + d);
        assert(acc * radix + d <= 0x10000 * 16 + 16) by (nonlinear_arith)
            requires
                acc <= 0x10000,
                radix <= 16,
                d < 16,
        ;
        let v = acc * radix + d;
        proof {
            if prev >= cap {
                assert(next >= cap) by (nonlinear_arith)
                    requires
                        next == prev * radix + d,
                        prev >= cap,
                        radix >= 2,
                ;
                assert(v >= cap) by (nonlinear_arith)
                    requires
                        v == acc * radix + d,
                        acc == cap,
                        radix >= 2,
                ;
            } else {
                assert(acc == prev);
            }
        }
        acc = if v < cap { v } else { cap };
        k = k + 1;
    }
    acc
}

/// The characters of a string slice, in order.
pub fn chars_of(input: &str) -> (r: Vec<char>)
    ensures
        r@ == input@,
{
    let mut out: Vec<char> = Vec::new();
    for c in it: input.chars()
        invariant
            out@ == it.seq().take(it.index() as int),
            it.seq() == input@,
    {
        out.push(c);
    }
    out
}

/// Builds a string from a run of characters.
#[verifier::external_body]
pub(crate) fn string_from_chars(cs: &[char]) -> (r: String)
    ensures
        r@ == cs@,
{
    String::from_iter(cs.iter())
}

/// The characters `s[from..to]` as a string.
pub fn substring(s: &Vec<char>, from: usize, to: usize) -> (r: String)
    requires
        from <= to <= s@.len(),
    ensures
        r@ == s@.subrange(from as int, to as int),
{
    let (head, _) = s.as_slice().split_at(to);
    let (_, mid) = head.split_at(from);
    string_from_chars(mid)
}

} // verus!
