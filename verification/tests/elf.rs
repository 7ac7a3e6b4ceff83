use ajax::elf::{has_elf_magic, load_elf, u16_le, u32_le, word, ElfError, Truncated};
use ajax::memory::PlaceError;
use std::collections::BTreeMap;

struct Segment {
    kind: u32,
    virtual_address: u32,
    physical_address: u32,
    bytes: Vec<u8>,
}

fn load(address: u32, bytes: &[u8]) -> Segment {
    Segment { kind: 1, virtual_address: 0, physical_address: address, bytes: bytes.to_vec() }
}

/// An ELF file for ARM with these segments.
fn elf(segments: &[Segment]) -> Vec<u8> {
    let mut file: Vec<u8> = vec![0; 52];
    file[0..7].copy_from_slice(&[0x7F, 0x45, 0x4C, 0x46, 1, 1, 1]);
    file[18] = 40;
    file[28] = 52;
    file[42] = 32;
    file[44] = segments.len() as u8;
    let mut offset: u32 = 52 + 32 * segments.len() as u32;
    for segment in segments {
        let size = segment.bytes.len() as u32;
        for value in [
            segment.kind,
            offset,
            segment.virtual_address,
            segment.physical_address,
            size,
            size,
            5,
            4,
        ] {
            file.extend_from_slice(&value.to_le_bytes());
        }
        offset += size;
    }
    for segment in segments {
        file.extend_from_slice(&segment.bytes);
    }
    file
}

#[test]
fn numbers_are_little_endian() {
    assert_eq!(u16_le(&[1, 2, 3], 1), Ok(0x0302));
    assert_eq!(u32_le(&[1, 2, 3, 4, 5], 1), Ok(0x0504_0302));
    assert_eq!(word(&[0xFF, 0, 0, 0x80], 0), 0x8000_00FF);
}

#[test]
fn numbers_end_with_the_data() {
    assert_eq!(u16_le(&[1, 2, 3], 2), Err(Truncated));
    assert_eq!(u32_le(&[1, 2, 3], 0), Err(Truncated));
    assert_eq!(u32_le(&[1, 2, 3, 4], 100), Err(Truncated));
}

#[test]
fn the_magic_is_four_bytes() {
    assert!(has_elf_magic(b"\x7FELF"));
    assert!(has_elf_magic(b"\x7FELF and more"));
    assert!(!has_elf_magic(b"\x7FEL"));
    assert!(!has_elf_magic(b"\x7EELF"));
    assert!(!has_elf_magic(b""));
}

#[test]
fn segments_go_to_their_physical_address() {
    let file = elf(&[load(0x0800_8000, &[1, 2]), load(0x081F_FFFF, &[3])]);
    let expected: BTreeMap<u32, u8> =
        BTreeMap::from([(0x0800_8000, 1), (0x0800_8001, 2), (0x081F_FFFF, 3)]);
    assert_eq!(load_elf(&file), Ok(expected));
}

#[test]
fn the_virtual_address_counts_where_there_is_no_physical_one() {
    let mut segment = load(0, &[7]);
    segment.virtual_address = 0x0800_9000;
    assert_eq!(load_elf(&elf(&[segment])), Ok(BTreeMap::from([(0x0800_9000, 7)])));
}

#[test]
fn only_loadable_segments_in_the_flash_count() {
    let mut note = load(0x0800_8000, &[1]);
    note.kind = 4;
    let file = elf(&[
        note,
        load(0x2000_0000, &[2]),
        load(0x0820_0000, &[3]),
        load(0x07FF_FFFF, &[4]),
        load(0x0800_8000, &[]),
    ]);
    assert_eq!(load_elf(&file), Ok(BTreeMap::new()));
}

#[test]
fn a_segment_that_starts_in_the_flash_counts_whole() {
    let file = elf(&[load(0x081F_FFFF, &[3, 4])]);
    assert_eq!(
        load_elf(&file),
        Ok(BTreeMap::from([(0x081F_FFFF, 3), (0x0820_0000, 4)]))
    );
}

#[test]
fn a_file_shorter_than_its_header_is_refused() {
    assert_eq!(load_elf(&[]), Err(ElfError::TooShort));
    assert_eq!(load_elf(&elf(&[])[..51]), Err(ElfError::TooShort));
}

#[test]
fn each_part_of_the_header_is_looked_at() {
    let change = |position: usize, value: u8| {
        let mut file = elf(&[]);
        file[position] = value;
        load_elf(&file)
    };
    assert_eq!(change(1, 0), Err(ElfError::InvalidMagic));
    assert_eq!(change(4, 2), Err(ElfError::NotThirtyTwoBit));
    assert_eq!(change(5, 2), Err(ElfError::NotLittleEndian));
    assert_eq!(change(18, 3), Err(ElfError::NotArm));
    assert_eq!(change(19, 1), Err(ElfError::NotArm));
    assert_eq!(change(42, 31), Err(ElfError::InvalidProgramHeaderSize));
    assert_eq!(change(0, 0x7F), Ok(BTreeMap::new()));
}

#[test]
fn program_headers_have_to_be_in_the_file() {
    let mut file = elf(&[]);
    file[44] = 1;
    assert_eq!(load_elf(&file), Err(ElfError::HeaderOutsideFile));
}

#[test]
fn segments_have_to_be_in_the_file() {
    let mut file = elf(&[load(0x0800_8000, &[1, 2])]);
    file.pop();
    assert_eq!(load_elf(&file), Err(ElfError::SegmentOutsideFile));
}

#[test]
fn segments_that_disagree_are_refused() {
    let file = elf(&[load(0x0800_8000, &[1, 2]), load(0x0800_8001, &[3])]);
    assert_eq!(
        load_elf(&file),
        Err(ElfError::Place(PlaceError::Conflict { address: 0x0800_8001 }))
    );
}

#[test]
fn larger_program_headers_are_stepped_over() {
    let mut file: Vec<u8> = elf(&[]);
    file[42] = 40;
    file[44] = 2;
    for (offset, address) in [(132u32, 0x0800_8000u32), (133, 0x0800_8001)] {
        for value in [1, offset, 0, address, 1, 1, 5, 4, 0, 0] {
            file.extend_from_slice(&value.to_le_bytes());
        }
    }
    file.extend_from_slice(&[8, 9]);
    assert_eq!(
        load_elf(&file),
        Ok(BTreeMap::from([(0x0800_8000, 8), (0x0800_8001, 9)]))
    );
}
