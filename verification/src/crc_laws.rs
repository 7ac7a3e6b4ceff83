//! What the CRC is: the remainder of a division of polynomials over the field of two elements.
//!
//! A polynomial is given by its coefficients, of which each is zero or one. A sum of two
//! coefficients is one where they differ.

use crate::crc::{crc_bit, crc_bits, crc_bytes, stm32_crc};
use vstd::prelude::*;

verus! {

/// The coefficient of `x^i` in the polynomial that the bits of a number make.
pub open spec fn coefficient(value: u32, i: int) -> bool {
    0 <= i < 32 && (value >> (i as u32)) & 1 == 1
}

/// The coefficient of `x^i` in the divisor: `x^32` and what `0x04C1_1DB7` stands for.
pub open spec fn divisor(i: int) -> bool {
    i == 32 || coefficient(0x04C1_1DB7, i)
}

/// The coefficient of `x^i` in the polynomial that bytes make, the first byte and in each byte the
/// highest bit first.
pub open spec fn message(data: Seq<u8>, i: int) -> bool {
    0 <= i < 8 * data.len() && (data[data.len() - 1 - i / 8] >> ((i % 8) as u8)) & 1 == 1
}

/// The coefficient of `x^i` in the dividend: the message times `x^32`, with the first 32
/// coefficients complemented.
pub open spec fn dividend(data: Seq<u8>, i: int) -> bool {
    message(data, i - 32) != (8 * data.len() <= i < 8 * data.len() + 32)
}

/// The coefficient of `x^i` in the product of the divisor and a polynomial of which the
/// coefficients are given, the highest one first.
pub open spec fn product(factor: Seq<bool>, i: int) -> bool
    decreases factor.len(),
{
    if factor.len() == 0 {
        false
    } else {
        product(factor.drop_last(), i - 1) != (factor.last() && divisor(i))
    }
}

/// Whether `remainder` is what is left of the dividend for `data` when it is divided, with this
/// quotient.
pub open spec fn divides(data: Seq<u8>, quotient: Seq<bool>, remainder: u32) -> bool {
    forall|i: int|
        #[trigger] dividend(data, i) == (product(quotient, i) != coefficient(remainder, i))
}

proof fn lemma_sum(left: u32, right: u32, i: int)
    ensures
        coefficient(left ^ right, i) == (coefficient(left, i) != coefficient(right, i)),
{
    if 0 <= i < 32 {
        let k = i as u32;
        assert(k < 32 ==> (((left ^ right) >> k) & 1 == 1) == (((left >> k) & 1 == 1) != ((right
            >> k) & 1 == 1))) by (bit_vector);
    }
}

/// One more bit multiplies the register by `x` and takes the divisor off where that reaches
/// `x^32`.
proof fn lemma_bit(crc: u32, i: int)
    ensures
        coefficient(crc_bit(crc), i) == (coefficient(crc, i - 1) != (coefficient(crc, 31)
            && divisor(i))),
{
    let shifted = crc << 1;
    assert(((crc >> 31) & 1 == 1) == (crc & 0x8000_0000 != 0)) by (bit_vector);
    lemma_sum(shifted, 0x04C1_1DB7, i);
    if 0 <= i < 32 {
        let k = i as u32;
        if k == 0 {
            assert(((crc << 1) >> 0) & 1 == 0) by (bit_vector);
        } else {
            let j = (i - 1) as u32;
            assert(k < 32 && k == j + 1 ==> ((crc << 1) >> k) & 1 == (crc >> j) & 1)
                by (bit_vector);
        }
    }
}

/// The bits of a byte above the 24 lower ones of the register.
proof fn lemma_top_byte(value: u8, i: int)
    ensures
        coefficient((value as u32) << 24, i) == (24 <= i < 32 && (value >> ((i - 24) as u8)) & 1
            == 1),
{
    if 0 <= i < 32 {
        let k = i as u32;
        if i < 24 {
            assert(k < 24 ==> (((value as u32) << 24) >> k) & 1 == 0) by (bit_vector);
        } else {
            let j = (i - 24) as u8;
            assert(k < 32 && k == j + 24 ==> ((((value as u32) << 24) >> k) & 1 == 1) == ((value
                >> j) & 1 == 1)) by (bit_vector);
        }
    }
}

/// The coefficients that fall out of the register in its next `count` bits, the first one first.
spec fn quotient_bits(crc: u32, count: nat) -> Seq<bool>
    decreases count,
{
    if count == 0 {
        Seq::empty()
    } else {
        quotient_bits(crc, (count - 1) as nat).push(
            coefficient(crc_bits(crc, (count - 1) as nat), 31),
        )
    }
}

/// Shifting the register by `count` bits divides what is multiplied by `x^count`.
proof fn lemma_bits(factor: Seq<bool>, crc: u32, count: nat, i: int)
    ensures
        (product(factor + quotient_bits(crc, count), i) != coefficient(
            crc_bits(crc, count),
            i,
        )) == (product(factor, i - count) != coefficient(crc, i - count)),
    decreases count,
{
    if count == 0 {
        assert(factor + quotient_bits(crc, count) =~= factor);
    } else {
        let before = (count - 1) as nat;
        let whole = factor + quotient_bits(crc, count);
        lemma_bits(factor, crc, before, i - 1);
        lemma_bit(crc_bits(crc, before), i);
        assert(whole.drop_last() =~= factor + quotient_bits(crc, before));
        assert(whole.last() == coefficient(crc_bits(crc, before), 31));
    }
}

proof fn lemma_division(data: Seq<u8>) -> (quotient: Seq<bool>)
    ensures
        quotient.len() == 8 * data.len(),
        divides(data, quotient, stm32_crc(data)),
    decreases data.len(),
{
    if data.len() == 0 {
        let quotient = Seq::<bool>::empty();
        assert forall|i: int| #[trigger] dividend(data, i) == (product(quotient, i) != coefficient(
            stm32_crc(data),
            i,
        )) by {
            if 0 <= i < 32 {
                let k = i as u32;
                assert(k < 32 ==> (0xFFFF_FFFFu32 >> k) & 1 == 1) by (bit_vector);
            }
        }
        quotient
    } else {
        let rest = data.drop_last();
        let value = data.last();
        let crc = stm32_crc(rest);
        let mixed = crc ^ ((value as u32) << 24);
        let before = lemma_division(rest);
        let quotient = before + quotient_bits(mixed, 8);
        lemma_quotient_length(mixed, 8);
        assert forall|i: int| #[trigger] dividend(data, i) == (product(quotient, i) != coefficient(
            stm32_crc(data),
            i,
        )) by {
            lemma_bits(before, mixed, 8, i);
            lemma_sum(crc, (value as u32) << 24, i - 8);
            lemma_top_byte(value, i - 8);
            assert(dividend(rest, i - 8) == (product(before, i - 8) != coefficient(crc, i - 8)));
            let k = i - 32;
            if 0 <= k < 8 {
                assert(data[data.len() - 1 - k / 8] == value);
            } else if 8 <= k < 8 * data.len() {
                assert((k - 8) / 8 == k / 8 - 1 && (k - 8) % 8 == k % 8);
                assert(data[data.len() - 1 - k / 8] == rest[rest.len() - 1 - (k - 8) / 8]);
            }
        }
        quotient
    }
}

proof fn lemma_quotient_length(crc: u32, count: nat)
    ensures
        quotient_bits(crc, count).len() == count,
    decreases count,
{
    if count > 0 {
        lemma_quotient_length(crc, (count - 1) as nat);
    }
}

/// The CRC of bytes is the remainder of a division over the field of two elements. The dividend is
/// the polynomial of the bytes, the first byte and the highest bit first, times `x^32`, with its
/// first 32 coefficients complemented; the divisor is `x^32` and the polynomial of `0x04C1_1DB7`.
pub proof fn law_crc_is_the_remainder(data: Seq<u8>)
    ensures
        exists|quotient: Seq<bool>|
            quotient.len() == 8 * data.len() && #[trigger] divides(
                data,
                quotient,
                stm32_crc(data),
            ),
{
    let quotient = lemma_division(data);
    assert(divides(data, quotient, stm32_crc(data)));
}

/// One more byte counts only by how it differs from the upper byte of the register.
pub proof fn law_a_byte_is_added_to_the_upper_byte(crc: u32, value: u8)
    ensures
        crc_bytes(crc, seq![value]) == crc_bytes(crc ^ ((value as u32) << 24), seq![0u8]),
        crc_bytes(crc, seq![value]) == (crc << 8) ^ crc_bytes(
            ((crc >> 24) ^ (value as u32)) << 24,
            seq![0u8],
        ),
{
    let mixed = crc ^ ((value as u32) << 24);
    let upper = ((crc >> 24) ^ (value as u32)) << 24;
    assert(seq![value].drop_last() =~= Seq::<u8>::empty());
    assert(seq![0u8].drop_last() =~= Seq::<u8>::empty());
    reveal_with_fuel(crc_bytes, 2);
    assert(mixed ^ ((0u8 as u32) << 24) == mixed) by (bit_vector);
    assert(upper ^ ((0u8 as u32) << 24) == upper) by (bit_vector);
    reveal_with_fuel(crc_bits, 9);
    assert(crc_bits(mixed, 8) == (crc << 8) ^ crc_bits(upper, 8)) by {
        lemma_eight_bits(mixed);
        lemma_eight_bits(upper);
        assert(mixed == crc ^ ((value as u32) << 24));
        assert(upper == ((crc >> 24) ^ (value as u32)) << 24);
        lemma_eight_shifts(crc, value);
    }
}

/// The register after eight more bits.
spec fn eight_shifts(crc: u32) -> u32 {
    crc_bit(crc_bit(crc_bit(crc_bit(crc_bit(crc_bit(crc_bit(crc_bit(crc))))))))
}

proof fn lemma_eight_bits(crc: u32)
    ensures
        crc_bits(crc, 8) == eight_shifts(crc),
{
    reveal_with_fuel(crc_bits, 9);
}

proof fn lemma_eight_shifts(crc: u32, value: u8)
    by (bit_vector)
    ensures
        eight_shifts(crc ^ ((value as u32) << 24)) == (crc << 8) ^ eight_shifts(
            ((crc >> 24) ^ (value as u32)) << 24,
        ),
{
}

} // verus!
