//! ELF files for 32-bit ARM.

use crate::memory::{
    covers, insert_bytes, law_place_overlays, lemma_overlaid_byte, overlays, place, PlaceError,
};
use std::collections::BTreeMap;
use vstd::prelude::*;

verus! {

/// The first address of the flash.
pub const FLASH_START: u32 = 0x0800_0000;

/// The first address behind the flash.
pub const FLASH_END: u32 = 0x0820_0000;

/// The length of an ELF header.
pub const HEADER_SIZE: usize = 52;

/// The length of a program header, as far as it is read.
pub const PROGRAM_HEADER_SIZE: usize = 32;

/// The file ends inside a number.
#[derive(Debug, Clone, Copy, PartialEq, Eq, Structural)]
pub struct Truncated;

/// Why a file is no ELF file that can be loaded.
#[derive(Debug, Clone, Copy, PartialEq, Eq, Structural)]
pub enum ElfError {
    TooShort,
    InvalidMagic,
    NotThirtyTwoBit,
    NotLittleEndian,
    NotArm,
    InvalidProgramHeaderSize,
    HeaderOverflow,
    HeaderOutsideFile,
    SegmentOutsideFile,
    Place(PlaceError),
}

/// The number that two bytes stand for, the lower one first.
pub open spec fn little_endian_16(bytes: Seq<u8>, offset: int) -> nat {
    bytes[offset] as nat + bytes[offset + 1] as nat * 0x100
}

/// The number that four bytes stand for, the lowest one first.
pub open spec fn little_endian_32(bytes: Seq<u8>, offset: int) -> nat {
    little_endian_16(bytes, offset) + little_endian_16(bytes, offset + 2) * 0x1_0000
}

/// Whether bytes start with the four that every ELF file starts with.
pub open spec fn starts_with_elf_magic(bytes: Seq<u8>) -> bool {
    bytes.len() >= 4 && bytes[0] == 0x7F && bytes[1] == 0x45 && bytes[2] == 0x4C && bytes[3]
        == 0x46
}

/// Where the program header at `offset` loads its segment: the physical address, or the virtual
/// one where there is no physical one.
pub open spec fn segment_address(elf: Seq<u8>, offset: int) -> nat {
    if little_endian_32(elf, offset + 12) != 0 {
        little_endian_32(elf, offset + 12)
    } else {
        little_endian_32(elf, offset + 8)
    }
}

/// Whether the program header at `offset` puts bytes of the file into the flash.
pub open spec fn is_flash_segment(elf: Seq<u8>, offset: int) -> bool {
    &&& little_endian_32(elf, offset) == 1
    &&& little_endian_32(elf, offset + 16) != 0
    &&& FLASH_START <= segment_address(elf, offset) < FLASH_END
}

/// The memory with the segment of the program header at `offset` placed in it.
pub open spec fn segment_memory(elf: Seq<u8>, offset: int, memory: Map<u32, u8>) -> Result<
    Map<u32, u8>,
    ElfError,
> {
    if !is_flash_segment(elf, offset) {
        Ok(memory)
    } else {
        let start = little_endian_32(elf, offset + 4);
        let end = start + little_endian_32(elf, offset + 16);
        if end > elf.len() {
            Err(ElfError::SegmentOutsideFile)
        } else {
            match place(
                memory,
                segment_address(elf, offset) as int,
                elf.subrange(start as int, end as int),
            ) {
                Ok(placed) => Ok(placed),
                Err(error) => Err(ElfError::Place(error)),
            }
        }
    }
}

/// The memory after the program headers from the one at `index` on.
pub open spec fn segments_memory(elf: Seq<u8>, index: nat, memory: Map<u32, u8>) -> Result<
    Map<u32, u8>,
    ElfError,
>
    decreases little_endian_16(elf, 44) - index,
{
    let size = little_endian_16(elf, 42);
    let offset = little_endian_32(elf, 28) + index * size;
    if index >= little_endian_16(elf, 44) {
        Ok(memory)
    } else if offset > usize::MAX {
        Err(ElfError::HeaderOverflow)
    } else if offset + size > elf.len() {
        Err(ElfError::HeaderOutsideFile)
    } else {
        match segment_memory(elf, offset as int, memory) {
            Err(error) => Err(error),
            Ok(next) => segments_memory(elf, index + 1, next),
        }
    }
}

/// The flash contents that an ELF file describes.
pub open spec fn elf_memory(elf: Seq<u8>) -> Result<Map<u32, u8>, ElfError> {
    if elf.len() < HEADER_SIZE {
        Err(ElfError::TooShort)
    } else if !starts_with_elf_magic(elf) {
        Err(ElfError::InvalidMagic)
    } else if elf[4] != 1 {
        Err(ElfError::NotThirtyTwoBit)
    } else if elf[5] != 1 {
        Err(ElfError::NotLittleEndian)
    } else if little_endian_16(elf, 18) != 40 {
        Err(ElfError::NotArm)
    } else if little_endian_16(elf, 42) < PROGRAM_HEADER_SIZE {
        Err(ElfError::InvalidProgramHeaderSize)
    } else {
        segments_memory(elf, 0, Map::empty())
    }
}

/// Whether the first bytes of a file are those of an ELF file.
pub fn has_elf_magic(bytes: &[u8]) -> (result: bool)
    ensures
        result == starts_with_elf_magic(bytes@),
{
    bytes.len() >= 4 && bytes[0] == 0x7F && bytes[1] == 0x45 && bytes[2] == 0x4C && bytes[3] == 0x46
}

/// The 16-bit number at an offset.
pub fn u16_le(data: &[u8], offset: usize) -> (result: Result<u16, Truncated>)
    requires
        offset + 2 <= usize::MAX,
    ensures
        match result {
            Ok(value) => offset + 2 <= data@.len() && value == little_endian_16(
                data@,
                offset as int,
            ),
            Err(_) => offset + 2 > data@.len(),
        },
{
    if offset + 2 > data.len() {
        return Err(Truncated);
    }
    Ok(data[offset] as u16 + data[offset + 1] as u16 * 0x100)
}

/// The 32-bit number at an offset.
pub fn u32_le(data: &[u8], offset: usize) -> (result: Result<u32, Truncated>)
    requires
        offset + 4 <= usize::MAX,
    ensures
        match result {
            Ok(value) => offset + 4 <= data@.len() && value == little_endian_32(
                data@,
                offset as int,
            ),
            Err(_) => offset + 4 > data@.len(),
        },
{
    if offset + 4 > data.len() {
        return Err(Truncated);
    }
    Ok(word(data, offset))
}

/// The 32-bit number at an offset inside the data.
pub fn word(data: &[u8], offset: usize) -> (value: u32)
    requires
        offset + 4 <= data@.len(),
    ensures
        value == little_endian_32(data@, offset as int),
{
    let lower: u32 = data[offset] as u32 + data[offset + 1] as u32 * 0x100;
    let upper: u32 = data[offset + 2] as u32 + data[offset + 3] as u32 * 0x100;
    lower + upper * 0x1_0000
}

/// Takes in the segment of the program header at an offset.
fn load_segment(elf: &[u8], offset: usize, memory: &mut BTreeMap<u32, u8>) -> (result: Result<
    (),
    ElfError,
>)
    requires
        offset + PROGRAM_HEADER_SIZE <= elf@.len(),
    ensures
        match segment_memory(elf@, offset as int, old(memory)@) {
            Ok(next) => result is Ok && final(memory)@ == next,
            Err(error) => result == Err::<(), ElfError>(error),
        },
{
    let length: usize = elf.len();
    if word(elf, offset) != 1 {
        return Ok(());
    }
    let file_offset: usize = word(elf, offset + 4) as usize;
    let virtual_address: u32 = word(elf, offset + 8);
    let physical_address: u32 = word(elf, offset + 12);
    let file_size: usize = word(elf, offset + 16) as usize;
    let address: u32 = if physical_address != 0 {
        physical_address
    } else {
        virtual_address
    };
    if file_size == 0 || address < FLASH_START || address >= FLASH_END {
        return Ok(());
    }
    if file_size > length || file_offset > length - file_size {
        return Err(ElfError::SegmentOutsideFile);
    }
    let segment: &[u8] = vstd::slice::slice_subrange(elf, file_offset, file_offset + file_size);
    match insert_bytes(memory, address, segment) {
        Ok(()) => Ok(()),
        Err(error) => Err(ElfError::Place(error)),
    }
}

/// Reads an ELF file.
pub fn load_elf(elf: &[u8]) -> (result: Result<BTreeMap<u32, u8>, ElfError>)
    ensures
        match result {
            Ok(memory) => elf_memory(elf@) == Ok::<Map<u32, u8>, ElfError>(memory@),
            Err(error) => elf_memory(elf@) == Err::<Map<u32, u8>, ElfError>(error),
        },
{
    if elf.len() < HEADER_SIZE {
        return Err(ElfError::TooShort);
    }
    if !has_elf_magic(elf) {
        return Err(ElfError::InvalidMagic);
    }
    if elf[4] != 1 {
        return Err(ElfError::NotThirtyTwoBit);
    }
    if elf[5] != 1 {
        return Err(ElfError::NotLittleEndian);
    }
    let (machine, table, size, count) = match (
        u16_le(elf, 18),
        u32_le(elf, 28),
        u16_le(elf, 42),
        u16_le(elf, 44),
    ) {
        (Ok(machine), Ok(table), Ok(size), Ok(count)) => (
            machine,
            table as usize,
            size as usize,
            count as usize,
        ),
        _ => {
            return Err(ElfError::TooShort);
        },
    };
    if machine != 40 {
        return Err(ElfError::NotArm);
    }
    if size < PROGRAM_HEADER_SIZE {
        return Err(ElfError::InvalidProgramHeaderSize);
    }
    let mut memory: BTreeMap<u32, u8> = BTreeMap::new();
    let mut index: usize = 0;
    while index < count
        invariant
            index <= count <= 0xFFFF,
            PROGRAM_HEADER_SIZE <= size <= 0xFFFF,
            table == little_endian_32(elf@, 28),
            size == little_endian_16(elf@, 42),
            count == little_endian_16(elf@, 44),
            segments_memory(elf@, index as nat, memory@) == elf_memory(elf@),
        decreases count - index,
    {
        assert(index * size <= 0xFFFF * 0xFFFF) by (nonlinear_arith)
            requires
                index <= 0xFFFF,
                size <= 0xFFFF,
        ;
        let offset: usize = match table.checked_add(index * size) {
            Some(offset) => offset,
            None => {
                return Err(ElfError::HeaderOverflow);
            },
        };
        if size > elf.len() || offset > elf.len() - size {
            return Err(ElfError::HeaderOutsideFile);
        }
        match load_segment(elf, offset, &mut memory) {
            Ok(()) => {},
            Err(error) => {
                return Err(error);
            },
        }
        index += 1;
    }
    Ok(memory)
}

/// Where the program header with a number is.
pub open spec fn header_offset(elf: Seq<u8>, index: nat) -> int {
    (little_endian_32(elf, 28) + index * little_endian_16(elf, 42)) as int
}

/// Whether the segment of the program header at `offset` puts a byte at an address.
pub open spec fn segment_covers(elf: Seq<u8>, offset: int, address: u32) -> bool {
    is_flash_segment(elf, offset) && segment_address(elf, offset) <= address < segment_address(
        elf,
        offset,
    ) + little_endian_32(elf, offset + 16)
}

/// The byte that the segment of the program header at `offset` puts at an address.
pub open spec fn segment_byte(elf: Seq<u8>, offset: int, address: u32) -> u8 {
    elf[little_endian_32(elf, offset + 4) + (address - segment_address(elf, offset))]
}

/// Whether the memory holds what the program headers from `from` on put there, over what was
/// there before.
pub open spec fn holds_segments(
    elf: Seq<u8>,
    from: nat,
    before: Map<u32, u8>,
    memory: Map<u32, u8>,
) -> bool {
    &&& forall|address: u32, index: nat|
        from <= index < little_endian_16(elf, 44) && #[trigger] segment_covers(
            elf,
            header_offset(elf, index),
            address,
        ) ==> memory.contains_key(address) && memory[address] == segment_byte(
            elf,
            header_offset(elf, index),
            address,
        )
    &&& forall|address: u32| #[trigger]
        memory.contains_key(address) ==> before.contains_key(address) || exists|index: nat|
            from <= index < little_endian_16(elf, 44) && #[trigger] segment_covers(
                elf,
                header_offset(elf, index),
                address,
            )
    &&& forall|address: u32| #[trigger]
        before.contains_key(address) ==> memory.contains_key(address) && memory[address]
            == before[address]
}

proof fn lemma_segments(elf: Seq<u8>, from: nat, before: Map<u32, u8>)
    requires
        segments_memory(elf, from, before) is Ok,
    ensures
        holds_segments(elf, from, before, segments_memory(elf, from, before)->Ok_0),
    decreases little_endian_16(elf, 44) - from,
{
    if from < little_endian_16(elf, 44) {
        let offset = header_offset(elf, from);
        let next = segment_memory(elf, offset, before)->Ok_0;
        let memory = segments_memory(elf, from, before)->Ok_0;
        assert(memory == segments_memory(elf, from + 1, next)->Ok_0);
        lemma_segments(elf, from + 1, next);
        let start = little_endian_32(elf, offset + 4);
        let bytes = elf.subrange(
            start as int,
            (start + little_endian_32(elf, offset + 16)) as int,
        );
        let address = segment_address(elf, offset) as int;
        if is_flash_segment(elf, offset) {
            law_place_overlays(before, address, bytes);
            assert(place(before, address, bytes) == Ok::<_, PlaceError>(next));
            assert(overlays(before, address, bytes, next));
        }
        assert forall|key: u32, index: nat|
            from <= index < little_endian_16(elf, 44) && #[trigger] segment_covers(
                elf,
                header_offset(elf, index),
                key,
            ) implies memory.contains_key(key) && memory[key] == segment_byte(
            elf,
            header_offset(elf, index),
            key,
        ) by {
            if index == from {
                assert(covers(address, bytes, key));
                lemma_overlaid_byte(before, address, bytes, next, key);
                assert(bytes[key - address] == segment_byte(elf, offset, key));
            }
        }
        assert forall|key: u32| #[trigger] memory.contains_key(key) implies before.contains_key(key)
            || exists|index: nat|
            from <= index < little_endian_16(elf, 44) && #[trigger] segment_covers(
                elf,
                header_offset(elf, index),
                key,
            ) by {
            if next.contains_key(key) && !before.contains_key(key) {
                assert(covers(address, bytes, key));
                assert(segment_covers(elf, header_offset(elf, from), key));
            }
        }
        assert forall|key: u32| #[trigger] before.contains_key(key) implies memory.contains_key(key)
            && memory[key] == before[key] by {
            assert(next.contains_key(key));
        }
    }
}

/// An ELF file that can be loaded gives the bytes of all its segments that go into the flash, at
/// their addresses, and no others.
pub proof fn law_elf_memory_is_that_of_the_flash_segments(elf: Seq<u8>)
    requires
        elf_memory(elf) is Ok,
    ensures
        holds_segments(elf, 0, Map::empty(), elf_memory(elf)->Ok_0),
        forall|address: u32| #[trigger]
            elf_memory(elf)->Ok_0.contains_key(address) ==> address >= FLASH_START,
{
    lemma_segments(elf, 0, Map::empty());
}

} // verus!
