//! Splitting integers into the bits carried by a bus of wires, and back.

use vstd::prelude::*;

verus! {

/// Bit `i` of `v`, counted from the least significant bit.
pub open spec fn bit_of(v: nat, i: nat) -> bool {
    (v / vstd::arithmetic::power2::pow2(i)) % 2 == 1
}

/// Types whose value can be laid out on `SIZE` wires, least significant bit first.
pub trait AsBits<const SIZE: usize> {
    spec fn bits_value(&self) -> nat;

    fn as_bits(&self) -> (r: [bool; SIZE])
        ensures
            forall|i: int| 0 <= i < SIZE ==> r@[i] == bit_of(self.bits_value(), i as nat),
    ;
}

impl AsBits<8> for u8 {
    open spec fn bits_value(&self) -> nat {
        *self as nat
    }

    fn as_bits(&self) -> (r: [bool; 8]) {
        let mut r = [false; 8];
        let v = *self;
        for shift in 0..8usize
            invariant
                v == *self,
                forall|i: int| 0 <= i < shift ==> r@[i] == bit_of(v as nat, i as nat),
        {
            let b = (v >> shift) & 1 > 0;
            assert(((v >> shift) & 1 > 0) == bit_of(v as nat, shift as nat)) by {
                lemma_shift_bit_u8(v, shift);
            }
            r[shift] = b;
        }
        r
    }
}

impl AsBits<16> for u16 {
    open spec fn bits_value(&self) -> nat {
        *self as nat
    }

    fn as_bits(&self) -> (r: [bool; 16]) {
        let mut r = [false; 16];
        let v = *self;
        for shift in 0..16usize
            invariant
                v == *self,
                forall|i: int| 0 <= i < shift ==> r@[i] == bit_of(v as nat, i as nat),
        {
            let b = (v >> shift) & 1 > 0;
            assert(((v >> shift) & 1 > 0) == bit_of(v as nat, shift as nat)) by {
                lemma_shift_bit_u16(v, shift);
            }
            r[shift] = b;
        }
        r
    }
}

/// The number whose binary digits, least significant first, are `bits`.
pub open spec fn bits_to_nat(bits: Seq<bool>) -> nat
    decreases bits.len(),
{
    if bits.len() == 0 {
        0
    } else {
        (if bits[0] { 1nat } else { 0nat }) + 2 * bits_to_nat(bits.drop_first())
    }
}

/// The first `n` bits of `v`, least significant first.
pub open spec fn bits_of(v: nat, n: nat) -> Seq<bool> {
    Seq::new(n, |i: int| bit_of(v, i as nat))
}

/// Reads the byte carried by eight wires, wire `i` holding bit `i`.
pub fn byte_from_bits(bits: &[bool; 8]) -> (r: u8)
    ensures
        r as nat == bits_to_nat(bits@),
{
    let mut acc: u8 = 0;
    let mut i: usize = 8;
    proof {
        vstd::arithmetic::power2::lemma2_to64();
    }
    while i > 0
        invariant
            i <= 8,
            acc as nat == bits_to_nat(bits@.subrange(i as int, 8)),
            bits_to_nat(bits@.subrange(i as int, 8)) < vstd::arithmetic::power2::pow2((8 - i) as nat),
        decreases i,
    {
        i = i - 1;
        proof {
            let tail = bits@.subrange(i as int, 8);
            assert(tail.drop_first() =~= bits@.subrange(i + 1, 8));
            vstd::arithmetic::power2::lemma_pow2_unfold((8 - i) as nat);
            vstd::arithmetic::power2::lemma2_to64();
        }
        let b: u8 = if bits[i] { 1 } else { 0 };
        acc = acc * 2 + b;
    }
    assert(bits@.subrange(0, 8) =~= bits@);
    acc
}

/// Splitting a number into its bits and reading them back gives the number.
pub proof fn lemma_bits_roundtrip(v: nat, n: nat)
    requires
        v < vstd::arithmetic::power2::pow2(n),
    ensures
        bits_to_nat(bits_of(v, n)) == v,
    decreases n,
{
    if n == 0 {
        vstd::arithmetic::power2::lemma2_to64();
    } else {
        vstd::arithmetic::power2::lemma_pow2_unfold(n);
        let bs = bits_of(v, n);
        assert(bs.drop_first() =~= bits_of(v / 2, (n - 1) as nat)) by {
            assert forall|i: int| 0 <= i < n - 1 implies bs.drop_first()[i] == bit_of(v / 2, i as nat) by {
                lemma_bit_of_half(v, i as nat);
            }
        }
        vstd::arithmetic::power2::lemma2_to64();
        assert(bit_of(v, 0) == (v % 2 == 1));
        assert(v / 2 < vstd::arithmetic::power2::pow2((n - 1) as nat)) by {
            vstd::arithmetic::div_mod::lemma_div_by_multiple_is_strongly_ordered(
                v as int, 2 * vstd::arithmetic::power2::pow2((n - 1) as nat) as int, vstd::arithmetic::power2::pow2((n - 1) as nat) as int, 2);
        }
        lemma_bits_roundtrip(v / 2, (n - 1) as nat);
        vstd::arithmetic::div_mod::lemma_fundamental_div_mod(v as int, 2);
    }
}

/// Bit `i + 1` of `v` is bit `i` of `v / 2`.
pub proof fn lemma_bit_of_half(v: nat, i: nat)
    ensures
        bit_of(v, i + 1) == bit_of(v / 2, i),
{
    vstd::arithmetic::power2::lemma_pow2_unfold(i + 1);
    vstd::arithmetic::power2::lemma_pow2_pos(i);
    vstd::arithmetic::div_mod::lemma_div_denominator(v as int, 2, vstd::arithmetic::power2::pow2(i) as int);
}

/// Laying a byte out on eight wires and reading them back gives the byte.
pub proof fn lemma_byte_bits_roundtrip(v: u8, bits: [bool; 8])
    requires
        forall|i: int| 0 <= i < 8 ==> bits@[i] == bit_of(v as nat, i as nat),
    ensures
        bits_to_nat(bits@) == v,
{
    assert(bits@ =~= bits_of(v as nat, 8));
    vstd::arithmetic::power2::lemma2_to64();
    lemma_bits_roundtrip(v as nat, 8);
}

proof fn lemma_shift_bit_u16(v: u16, shift: usize)
    requires
        shift < 16,
    ensures
        ((v >> shift) & 1 > 0) == bit_of(v as nat, shift as nat),
{
    vstd::bits::lemma_u16_shr_is_div(v, shift as u16);
    assert(((v >> shift) & 1) == (v >> shift) % 2) by (bit_vector);
}

proof fn lemma_shift_bit_u8(v: u8, shift: usize)
    requires
        shift < 8,
    ensures
        ((v >> shift) & 1 > 0) == bit_of(v as nat, shift as nat),
{
    vstd::bits::lemma_u8_shr_is_div(v, shift as u8);
    assert(((v >> shift) & 1) == (v >> shift) % 2) by (bit_vector);
}

} // verus!
