//! What an ELF file for 32-bit ARM says, field by field.

use crate::elf::{
    elf_memory, header_offset, is_flash_segment, law_elf_memory_is_that_of_the_flash_segments,
    segment_covers, segment_memory, segments_memory, ElfError,
};
use crate::memory::{agrees, covers, law_place_overlays, lemma_overlaid_byte, place};
use vstd::prelude::*;

verus! {

/// The field of two bytes at an offset, the lower byte first.
pub open spec fn half(elf: Seq<u8>, offset: int) -> int {
    elf[offset] + 0x100 * elf[offset + 1]
}

/// The field of four bytes at an offset, the lowest byte first.
pub open spec fn full(elf: Seq<u8>, offset: int) -> int {
    elf[offset] + 0x100 * elf[offset + 1] + 0x1_0000 * elf[offset + 2] + 0x100_0000 * elf[offset
        + 3]
}

/// Whether a file starts with the header of an ELF file for 32-bit little-endian ARM, with program
/// headers of at least 32 bytes.
pub open spec fn has_arm_header(elf: Seq<u8>) -> bool {
    &&& elf.len() >= 52
    &&& elf[0] == 0x7F && elf[1] == 0x45 && elf[2] == 0x4C && elf[3] == 0x46
    &&& elf[4] == 1
    &&& elf[5] == 1
    &&& half(elf, 18) == 40
    &&& half(elf, 42) >= 32
}

/// Where program header `k` is.
pub open spec fn program_header(elf: Seq<u8>, k: int) -> int {
    full(elf, 28) + k * half(elf, 42)
}

/// Whether byte `i` of the segment of program header `k` goes to an address: the segment is
/// loadable, holds the byte, and starts in the flash, at its physical address, or at its virtual
/// one where there is no physical one.
pub open spec fn puts(elf: Seq<u8>, k: int, i: int, address: int) -> bool {
    let header = program_header(elf, k);
    let physical = full(elf, header + 12);
    let start = full(elf, header + 8);
    &&& 0 <= k < half(elf, 44)
    &&& full(elf, header) == 1
    &&& 0 <= i < full(elf, header + 16)
    &&& physical != 0 ==> 0x0800_0000 <= physical < 0x0820_0000 && address == physical + i
    &&& physical == 0 ==> 0x0800_0000 <= start < 0x0820_0000 && address == start + i
}

/// Byte `i` of the segment of program header `k`.
pub open spec fn put_byte(elf: Seq<u8>, k: int, i: int) -> u8 {
    elf[full(elf, program_header(elf, k) + 4) + i]
}

/// Whether a file can be loaded: its program headers are in it, and so are the bytes that go into
/// the flash, none of which runs past the last address, and no two of which differ at one address.
pub open spec fn can_be_loaded(elf: Seq<u8>) -> bool {
    &&& has_arm_header(elf)
    &&& forall|k: int|
        0 <= k < half(elf, 44) ==> #[trigger] program_header(elf, k) + half(elf, 42) <= elf.len()
    &&& forall|k: int, i: int, address: int| #[trigger]
        puts(elf, k, i, address) ==> full(elf, program_header(elf, k) + 4) + i < elf.len()
            && address <= u32::MAX
    &&& forall|k: int, i: int, l: int, j: int, address: int| #[trigger]
        puts(elf, k, i, address) && #[trigger] puts(elf, l, j, address) ==> put_byte(elf, k, i)
            == put_byte(elf, l, j)
}

/// A program header in the words of the file.
proof fn lemma_covers(elf: Seq<u8>, k: int, address: u32)
    requires
        0 <= k < half(elf, 44),
    ensures
        header_offset(elf, k as nat) == program_header(elf, k),
        segment_covers(elf, header_offset(elf, k as nat), address) <==> exists|i: int| #[trigger]
            puts(elf, k, i, address as int),
{
    let header = program_header(elf, k);
    assert(header_offset(elf, k as nat) == header);
    let start = if full(elf, header + 12) != 0 {
        full(elf, header + 12)
    } else {
        full(elf, header + 8)
    };
    if segment_covers(elf, header, address) {
        assert(puts(elf, k, address - start, address as int));
    }
}

/// A file that is loaded puts each byte of a loadable segment at the physical address of the
/// segment, where that lies in the flash, whatever its virtual address is.
pub proof fn law_segments_go_to_their_physical_address(elf: Seq<u8>, k: int, i: int)
    requires
        elf_memory(elf) is Ok,
        0 <= k < half(elf, 44),
        full(elf, program_header(elf, k)) == 1,
        0x0800_0000 <= full(elf, program_header(elf, k) + 12) < 0x0820_0000,
        0 <= i < full(elf, program_header(elf, k) + 16),
    ensures
        ({
            let memory = elf_memory(elf)->Ok_0;
            let address = full(elf, program_header(elf, k) + 12) + i;
            &&& address <= u32::MAX
            &&& memory.contains_key(address as u32)
            &&& memory[address as u32] == elf[full(elf, program_header(elf, k) + 4) + i]
        }),
{
    let address = full(elf, program_header(elf, k) + 12) + i;
    assert(puts(elf, k, i, address));
    lemma_loaded(elf);
}

proof fn lemma_loaded(elf: Seq<u8>)
    requires
        elf_memory(elf) is Ok,
    ensures
        can_be_loaded(elf),
        forall|k: int, i: int, address: int| #[trigger]
            puts(elf, k, i, address) ==> elf_memory(elf)->Ok_0.contains_key(address as u32)
                && elf_memory(elf)->Ok_0[address as u32] == put_byte(elf, k, i),
        forall|address: u32| #[trigger]
            elf_memory(elf)->Ok_0.contains_key(address) ==> exists|k: int, i: int| #[trigger]
                puts(elf, k, i, address as int),
{
    let memory = elf_memory(elf)->Ok_0;
    law_elf_memory_is_that_of_the_flash_segments(elf);
    assert forall|k: int|
        0 <= k < half(elf, 44) implies #[trigger] program_header(elf, k) + half(elf, 42)
        <= elf.len() by {
        lemma_headers_inside(elf, 0, Map::empty(), k);
    }
    assert forall|k: int, i: int, address: int| #[trigger] puts(elf, k, i, address) implies full(
        elf,
        program_header(elf, k) + 4,
    ) + i < elf.len() && address <= u32::MAX && memory.contains_key(address as u32)
        && memory[address as u32] == put_byte(elf, k, i) by {
        lemma_headers_inside(elf, 0, Map::empty(), k);
        lemma_covers(elf, k, address as u32);
        assert(segment_covers(elf, header_offset(elf, k as nat), address as u32));
    }
    assert forall|address: u32| #[trigger] memory.contains_key(address) implies exists|
        k: int,
        i: int,
    | #[trigger] puts(elf, k, i, address as int) by {
        let index = choose|index: nat|
            index < half(elf, 44) && #[trigger] segment_covers(
                elf,
                header_offset(elf, index),
                address,
            );
        lemma_covers(elf, index as int, address);
        let i = choose|i: int| #[trigger] puts(elf, index as int, i, address as int);
        assert(puts(elf, index as int, i, address as int));
    }
}

/// What is read of a file that is loaded is inside it.
proof fn lemma_headers_inside(elf: Seq<u8>, from: nat, memory: Map<u32, u8>, k: int)
    requires
        segments_memory(elf, from, memory) is Ok,
        from <= k < half(elf, 44),
    ensures
        program_header(elf, k) + half(elf, 42) <= elf.len(),
        forall|i: int, address: int| #[trigger]
            puts(elf, k, i, address) ==> full(elf, program_header(elf, k) + 4) + i < elf.len()
                && address <= u32::MAX,
    decreases k - from,
{
    let offset = header_offset(elf, from);
    let next = segment_memory(elf, offset, memory)->Ok_0;
    if k > from {
        lemma_headers_inside(elf, from + 1, next, k);
    } else {
        assert(offset == program_header(elf, k));
        assert forall|i: int, address: int| #[trigger] puts(elf, k, i, address) implies full(
            elf,
            program_header(elf, k) + 4,
        ) + i < elf.len() && address <= u32::MAX by {
            assert(is_flash_segment(elf, offset));
            let start = full(elf, offset + 4);
            let bytes = elf.subrange(start, start + full(elf, offset + 16));
            law_place_overlays(memory, address - i, bytes);
        }
    }
}

proof fn lemma_loads(elf: Seq<u8>, from: nat, memory: Map<u32, u8>)
    requires
        can_be_loaded(elf),
        elf.len() <= usize::MAX,
        forall|key: u32| #[trigger]
            memory.contains_key(key) ==> exists|k: int, i: int|
                #[trigger] puts(elf, k, i, key as int) && memory[key] == put_byte(elf, k, i),
    ensures
        segments_memory(elf, from, memory) is Ok,
    decreases half(elf, 44) - from,
{
    if from < half(elf, 44) {
        let offset = header_offset(elf, from);
        let k = from as int;
        assert(offset == program_header(elf, k));
        assert(offset + half(elf, 42) <= elf.len());
        if is_flash_segment(elf, offset) {
            let start = full(elf, offset + 4);
            let size = full(elf, offset + 16);
            let address = if full(elf, offset + 12) != 0 {
                full(elf, offset + 12)
            } else {
                full(elf, offset + 8)
            };
            assert(puts(elf, k, size - 1, address + size - 1));
            let bytes = elf.subrange(start, start + size);
            assert forall|key: u32| #[trigger]
                memory.contains_key(key) && covers(address, bytes, key) implies memory[key]
                == bytes[key - address] by {
                let (l, j) = choose|l: int, j: int|
                    #[trigger] puts(elf, l, j, key as int) && memory[key] == put_byte(elf, l, j);
                assert(puts(elf, k, key - address, key as int));
                assert(put_byte(elf, k, key - address) == bytes[key - address]);
            }
            assert(agrees(memory, address, bytes));
            law_place_overlays(memory, address, bytes);
            let next = place(memory, address, bytes)->Ok_0;
            assert(segment_memory(elf, offset, memory) == Ok::<_, ElfError>(next));
            assert forall|key: u32| #[trigger] next.contains_key(key) implies exists|
                l: int,
                j: int,
            | #[trigger] puts(elf, l, j, key as int) && next[key] == put_byte(elf, l, j) by {
                if covers(address, bytes, key) {
                    lemma_overlaid_byte(memory, address, bytes, next, key);
                    assert(puts(elf, k, key - address, key as int));
                    assert(put_byte(elf, k, key - address) == bytes[key - address]);
                } else {
                    assert(memory.contains_key(key));
                    let (l, j) = choose|l: int, j: int|
                        #[trigger] puts(elf, l, j, key as int) && memory[key] == put_byte(
                            elf,
                            l,
                            j,
                        );
                    assert(puts(elf, l, j, key as int));
                }
            }
            lemma_loads(elf, from + 1, next);
        } else {
            lemma_loads(elf, from + 1, memory);
        }
    }
}

/// A file is loaded exactly when its header is that of an ELF file for ARM, what it describes is
/// in it and below the last address, and no two of its bytes differ at one address. Memory then
/// holds the bytes of its segments that start in the flash, at their addresses, and nothing else.
pub proof fn law_a_file_is_loaded_for_what_it_describes(elf: Seq<u8>)
    requires
        elf.len() <= usize::MAX,
    ensures
        elf_memory(elf) is Ok <==> can_be_loaded(elf),
        elf_memory(elf) matches Ok(memory) ==> {
            &&& forall|k: int, i: int, address: int| #[trigger]
                puts(elf, k, i, address) ==> memory.contains_key(address as u32)
                    && memory[address as u32] == put_byte(elf, k, i)
            &&& forall|address: u32| #[trigger]
                memory.contains_key(address) ==> exists|k: int, i: int| #[trigger]
                    puts(elf, k, i, address as int)
        },
{
    if elf_memory(elf) is Ok {
        lemma_loaded(elf);
    }
    if can_be_loaded(elf) {
        lemma_loads(elf, 0, Map::empty());
    }
}

/// A file with a wrong header is refused for the first part of the header that is wrong.
pub proof fn law_a_wrong_header_is_refused(elf: Seq<u8>)
    ensures
        elf_memory(elf) == Err::<Map<u32, u8>, ElfError>(ElfError::TooShort) <==> elf.len() < 52,
        elf.len() >= 52 ==> {
            let magic = elf[0] == 0x7F && elf[1] == 0x45 && elf[2] == 0x4C && elf[3] == 0x46;
            let error = elf_memory(elf);
            &&& error == Err::<Map<u32, u8>, ElfError>(ElfError::InvalidMagic) <==> !magic
            &&& magic ==> (error == Err::<Map<u32, u8>, ElfError>(ElfError::NotThirtyTwoBit)
                <==> elf[4] != 1)
            &&& magic && elf[4] == 1 ==> (error == Err::<Map<u32, u8>, ElfError>(
                ElfError::NotLittleEndian,
            ) <==> elf[5] != 1)
            &&& magic && elf[4] == 1 && elf[5] == 1 ==> (error == Err::<Map<u32, u8>, ElfError>(
                ElfError::NotArm,
            ) <==> half(elf, 18) != 40)
            &&& magic && elf[4] == 1 && elf[5] == 1 && half(elf, 18) == 40 ==> (error == Err::<
                Map<u32, u8>,
                ElfError,
            >(ElfError::InvalidProgramHeaderSize) <==> half(elf, 42) < 32)
        },
{
    if elf.len() >= 52 {
        lemma_later_errors(elf, 0, Map::empty());
    }
}

/// Segments do not make the header wrong.
proof fn lemma_later_errors(elf: Seq<u8>, from: nat, memory: Map<u32, u8>)
    ensures
        segments_memory(elf, from, memory) matches Err(error) ==> error is HeaderOverflow || error
            is HeaderOutsideFile || error is SegmentOutsideFile || error is Place,
    decreases half(elf, 44) - from,
{
    if from < half(elf, 44) {
        if let Ok(next) = segment_memory(elf, header_offset(elf, from), memory) {
            lemma_later_errors(elf, from + 1, next);
        }
    }
}

/// Whether the segment of the program header at an offset puts bytes into the flash.
pub open spec fn is_for_the_flash(elf: Seq<u8>, header: int) -> bool {
    let physical = full(elf, header + 12);
    &&& full(elf, header) == 1
    &&& full(elf, header + 16) > 0
    &&& physical != 0 ==> 0x0800_0000 <= physical < 0x0820_0000
    &&& physical == 0 ==> 0x0800_0000 <= full(elf, header + 8) < 0x0820_0000
}

/// Program headers are taken in order, and the first one that is wrong decides: where it or its
/// segment is outside the file, or where the bytes of the segment find no place.
pub proof fn law_the_first_wrong_program_header_decides(
    elf: Seq<u8>,
    k: int,
    memory: Map<u32, u8>,
)
    requires
        0 <= k < half(elf, 44),
    ensures
        has_arm_header(elf) ==> elf_memory(elf) == segments_memory(elf, 0, Map::empty()),
        segments_memory(elf, half(elf, 44) as nat, memory) == Ok::<Map<u32, u8>, ElfError>(memory),
        ({
            let header = program_header(elf, k);
            let result = segments_memory(elf, k as nat, memory);
            let first = full(elf, header + 4);
            let end = first + full(elf, header + 16);
            let start = if full(elf, header + 12) != 0 {
                full(elf, header + 12)
            } else {
                full(elf, header + 8)
            };
            if header > usize::MAX {
                result == Err::<Map<u32, u8>, ElfError>(ElfError::HeaderOverflow)
            } else if header + half(elf, 42) > elf.len() {
                result == Err::<Map<u32, u8>, ElfError>(ElfError::HeaderOutsideFile)
            } else if !is_for_the_flash(elf, header) {
                result == segments_memory(elf, (k + 1) as nat, memory)
            } else if end > elf.len() {
                result == Err::<Map<u32, u8>, ElfError>(ElfError::SegmentOutsideFile)
            } else {
                match place(memory, start, elf.subrange(first, end)) {
                    Err(error) => result == Err::<Map<u32, u8>, ElfError>(ElfError::Place(error)),
                    Ok(next) => result == segments_memory(elf, (k + 1) as nat, next),
                }
            }
        }),
{
    assert(header_offset(elf, k as nat) == program_header(elf, k));
}

} // verus!
