//! The CRC-32 of the STM32 CRC unit, taken byte by byte.

use vstd::prelude::*;

verus! {

pub const CRC_POLYNOMIAL: u32 = 0x04C1_1DB7;

/// What the unit starts from.
pub const CRC_INITIAL: u32 = 0xFFFF_FFFF;

/// The register after one more bit: shifted to the left, and reduced by the polynomial where a
/// one falls out.
pub open spec fn crc_bit(crc: u32) -> u32 {
    if crc & 0x8000_0000 != 0 {
        (crc << 1) ^ CRC_POLYNOMIAL
    } else {
        crc << 1
    }
}

/// The register after `count` more bits.
pub open spec fn crc_bits(crc: u32, count: nat) -> u32
    decreases count,
{
    if count == 0 {
        crc
    } else {
        crc_bit(crc_bits(crc, (count - 1) as nat))
    }
}

/// The register after one more byte.
pub open spec fn crc_byte(crc: u32, value: u8) -> u32 {
    crc_bits(crc ^ ((value as u32) << 24), 8)
}

/// The register after more bytes.
pub open spec fn crc_bytes(crc: u32, data: Seq<u8>) -> u32
    decreases data.len(),
{
    if data.len() == 0 {
        crc
    } else {
        crc_byte(crc_bytes(crc, data.drop_last()), data.last())
    }
}

/// The CRC of bytes.
pub open spec fn stm32_crc(data: Seq<u8>) -> u32 {
    crc_bytes(CRC_INITIAL, data)
}

/// Computes the CRC of bytes.
pub fn crc32_stm32(data: &[u8]) -> (crc: u32)
    ensures
        crc == stm32_crc(data@),
{
    let mut crc: u32 = CRC_INITIAL;
    let mut index: usize = 0;
    while index < data.len()
        invariant
            index <= data@.len(),
            crc == stm32_crc(data@.take(index as int)),
        decreases data@.len() - index,
    {
        let value: u8 = data[index];
        crc = crc ^ ((value as u32) << 24);
        let ghost mixed = crc;
        let mut bit: u32 = 0;
        while bit < 8
            invariant
                bit <= 8,
                crc == crc_bits(mixed, bit as nat),
            decreases 8 - bit,
        {
            crc = if crc & 0x8000_0000 != 0 {
                (crc << 1) ^ CRC_POLYNOMIAL
            } else {
                crc << 1
            };
            bit += 1;
        }
        assert(data@.take(index + 1).drop_last() =~= data@.take(index as int));
        index += 1;
    }
    assert(data@.take(index as int) =~= data@);
    crc
}

/// The CRC of data in two parts goes on where the CRC of the first part ends.
pub proof fn law_crc_continues(crc: u32, first: Seq<u8>, second: Seq<u8>)
    ensures
        crc_bytes(crc, first + second) == crc_bytes(crc_bytes(crc, first), second),
    decreases second.len(),
{
    if second.len() == 0 {
        assert(first + second =~= first);
    } else {
        assert((first + second).drop_last() =~= first + second.drop_last());
        law_crc_continues(crc, first, second.drop_last());
    }
}

proof fn lemma_crc_bits_injective(left: u32, right: u32, count: nat)
    requires
        crc_bits(left, count) == crc_bits(right, count),
    ensures
        left == right,
    decreases count,
{
    if count > 0 {
        let a = crc_bits(left, (count - 1) as nat);
        let b = crc_bits(right, (count - 1) as nat);
        assert(crc_bit(a) == crc_bit(b) ==> a == b) by (bit_vector);
        lemma_crc_bits_injective(left, right, (count - 1) as nat);
    }
}

/// Data of one length whose registers differ before it leave different registers behind it.
proof fn lemma_crc_bytes_injective(left: u32, right: u32, data: Seq<u8>)
    requires
        crc_bytes(left, data) == crc_bytes(right, data),
    ensures
        left == right,
    decreases data.len(),
{
    if data.len() > 0 {
        let a = crc_bytes(left, data.drop_last());
        let b = crc_bytes(right, data.drop_last());
        let value = data.last();
        lemma_crc_bits_injective(a ^ ((value as u32) << 24), b ^ ((value as u32) << 24), 8);
        assert(a ^ ((value as u32) << 24) == b ^ ((value as u32) << 24) ==> a == b) by (bit_vector);
        lemma_crc_bytes_injective(left, right, data.drop_last());
    }
}

/// One changed byte changes the CRC, wherever it stands.
pub proof fn law_crc_detects_a_changed_byte(data: Seq<u8>, position: int, value: u8)
    requires
        0 <= position < data.len(),
        data[position] != value,
    ensures
        stm32_crc(data.update(position, value)) != stm32_crc(data),
{
    let changed = data.update(position, value);
    let head = data.take(position);
    let tail = data.skip(position + 1);
    let old_value = data[position];
    assert(data =~= head.push(old_value) + tail);
    assert(changed =~= head.push(value) + tail);
    law_crc_continues(CRC_INITIAL, head.push(old_value), tail);
    law_crc_continues(CRC_INITIAL, head.push(value), tail);
    if stm32_crc(changed) == stm32_crc(data) {
        lemma_crc_bytes_injective(
            stm32_crc(head.push(value)),
            stm32_crc(head.push(old_value)),
            tail,
        );
        assert(head.push(value).drop_last() =~= head);
        assert(head.push(old_value).drop_last() =~= head);
        let crc = stm32_crc(head);
        lemma_crc_bits_injective(
            crc ^ ((value as u32) << 24),
            crc ^ ((old_value as u32) << 24),
            8,
        );
        assert(crc ^ ((value as u32) << 24) == crc ^ ((old_value as u32) << 24) ==> value
            == old_value) by (bit_vector);
    }
}

} // verus!
