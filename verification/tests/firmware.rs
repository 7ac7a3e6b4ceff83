use ajax::crc::crc32_stm32;
use ajax::elf::ElfError;
use ajax::firmware::{
    create_mapped, format_of_extension, load, load_bin, validate, FileFormat, ImageError,
    LoadError, ValidationError,
};
use ajax::hex::HexError;
use ajax::types::Firmware;
use std::collections::BTreeMap;

/// An image with a vector table for the application, and more bytes behind it.
fn image(length: usize) -> Vec<u8> {
    let mut data: Vec<u8> = vec![0x00, 0x00, 0x02, 0x20, 0x01, 0x81, 0x00, 0x08];
    for index in 8..length {
        data.push(index as u8);
    }
    data.truncate(length);
    data
}

fn firmware(data: Vec<u8>, address: u32) -> Firmware {
    Firmware { crc32: crc32_stm32(&data), data, address, format: "BIN" }
}

fn record(offset: u16, record_type: u8, payload: &[u8]) -> String {
    let mut raw: Vec<u8> = vec![payload.len() as u8, (offset >> 8) as u8, offset as u8, record_type];
    raw.extend_from_slice(payload);
    let sum: u8 = raw.iter().fold(0u8, |sum, byte| sum.wrapping_add(*byte));
    raw.push(0u8.wrapping_sub(sum));
    let digits: Vec<String> = raw.iter().map(|byte| format!("{byte:02X}")).collect();
    format!(":{}\n", digits.concat())
}

fn elf(address: u32, bytes: &[u8]) -> Vec<u8> {
    let mut file: Vec<u8> = vec![0; 52];
    file[0..7].copy_from_slice(&[0x7F, 0x45, 0x4C, 0x46, 1, 1, 1]);
    file[18] = 40;
    file[28] = 52;
    file[42] = 32;
    file[44] = 1;
    let size = bytes.len() as u32;
    for value in [1, 84, address, address, size, size, 5, 4] {
        file.extend_from_slice(&value.to_le_bytes());
    }
    file.extend_from_slice(bytes);
    file
}

#[test]
fn extensions_stand_for_formats_in_any_case() {
    assert_eq!(format_of_extension("bin"), FileFormat::Bin);
    assert_eq!(format_of_extension("BiN"), FileFormat::Bin);
    assert_eq!(format_of_extension("hex"), FileFormat::Hex);
    assert_eq!(format_of_extension("IHEX"), FileFormat::Hex);
    assert_eq!(format_of_extension("elf"), FileFormat::Elf);
    assert_eq!(format_of_extension("Axf"), FileFormat::Elf);
    assert_eq!(format_of_extension(""), FileFormat::Unknown);
    assert_eq!(format_of_extension("bin "), FileFormat::Unknown);
}

#[test]
fn a_binary_file_is_the_image() {
    let firmware = load("BIN", image(20)).unwrap();
    assert_eq!(firmware.data, image(20));
    assert_eq!(firmware.address, 0x0800_8000);
    assert_eq!(firmware.crc32, crc32_stm32(&image(20)));
    assert_eq!(firmware.format, "BIN");
}

#[test]
fn a_binary_file_may_hold_anything_until_it_is_validated() {
    assert_eq!(load_bin(vec![1]).unwrap().data, vec![1]);
    assert_eq!(load_bin(vec![]).unwrap_err(), LoadError::EmptyBin);
    assert_eq!(load("bin", vec![]).unwrap_err(), LoadError::EmptyBin);
}

#[test]
fn a_hex_file_makes_an_image_with_erased_gaps() {
    let text = format!(
        "{}{}{}{}",
        record(0, 4, &[0x08, 0x00]),
        record(0x800A, 0, &[0x55]),
        record(0x8000, 0, &image(8)),
        record(0, 1, &[]),
    );
    let firmware = load("hex", text.into_bytes()).unwrap();
    let mut expected: Vec<u8> = image(8);
    expected.extend_from_slice(&[0xFF, 0xFF, 0x55]);
    assert_eq!(firmware.crc32, crc32_stm32(&expected));
    assert_eq!(firmware.data, expected);
    assert_eq!(firmware.address, 0x0800_8000);
    assert_eq!(firmware.format, "HEX");
}

#[test]
fn a_hex_file_is_text() {
    assert_eq!(load("hex", vec![0x3A, 0xFF]).unwrap_err(), LoadError::NotText);
    assert_eq!(load("ihex", vec![0xC3, 0x28]).unwrap_err(), LoadError::NotText);
    assert_eq!(
        load("hex", "é".as_bytes().to_vec()).unwrap_err(),
        LoadError::Hex(HexError::InvalidRecord { line: 1 })
    );
}

#[test]
fn an_elf_file_makes_an_image() {
    for extension in ["elf", "axf", "", "o"] {
        let firmware = load(extension, elf(0x0800_8000, &image(12))).unwrap();
        assert_eq!(firmware.data, image(12));
        assert_eq!(firmware.format, "ELF");
    }
}

#[test]
fn the_extension_counts_more_than_the_magic() {
    let firmware = load("bin", elf(0x0800_8000, &image(12)));
    assert_eq!(
        firmware.unwrap_err(),
        LoadError::Validation(ValidationError::InvalidVectorTable)
    );
    assert_eq!(load("elf", image(60)).unwrap_err(), LoadError::Elf(ElfError::InvalidMagic));
}

#[test]
fn other_files_are_refused() {
    assert_eq!(load("txt", image(20)).unwrap_err(), LoadError::UnsupportedFormat);
    assert_eq!(load("", vec![]).unwrap_err(), LoadError::UnsupportedFormat);
}

#[test]
fn an_image_has_to_start_with_the_application() {
    assert_eq!(
        load("elf", elf(0x0800_8004, &image(8))).unwrap_err(),
        LoadError::Image(ImageError::WrongStart { first: 0x0800_8004 })
    );
    assert_eq!(
        load("elf", elf(0x2000_0000, &image(8))).unwrap_err(),
        LoadError::Image(ImageError::NoFlashData)
    );
    assert_eq!(
        load("hex", vec![]).unwrap_err(),
        LoadError::Image(ImageError::NoFlashData)
    );
}

#[test]
fn memory_makes_an_image_from_its_lowest_to_its_highest_address() {
    let memory: BTreeMap<u32, u8> = BTreeMap::from([(0x0800_8003, 4), (0x0800_8000, 1)]);
    let firmware = create_mapped("HEX", memory).unwrap();
    assert_eq!(firmware.data, vec![1, 0xFF, 0xFF, 4]);
    assert_eq!(create_mapped("HEX", BTreeMap::new()).unwrap_err(), ImageError::NoFlashData);
}

#[test]
fn an_image_needs_a_vector_table() {
    assert_eq!(
        validate(&firmware(image(7), 0x0800_8000)),
        Err(ValidationError::IncompleteVectorTable)
    );
    assert_eq!(validate(&firmware(image(8), 0x0800_8000)), Ok(()));
}

#[test]
fn an_image_has_to_be_linked_for_the_application() {
    assert_eq!(
        validate(&firmware(image(8), 0x0800_0000)),
        Err(ValidationError::WrongAddress)
    );
}

#[test]
fn an_image_has_to_fit_in_the_application_region() {
    assert_eq!(validate(&firmware(image(0xF_8000), 0x0800_8000)), Ok(()));
    assert_eq!(
        validate(&firmware(image(0xF_8001), 0x0800_8000)),
        Err(ValidationError::TooLarge)
    );
}

#[test]
fn the_stack_pointer_has_to_lie_in_the_ram() {
    let check = |stack: u32| {
        let mut data: Vec<u8> = image(8);
        data[0..4].copy_from_slice(&stack.to_le_bytes());
        validate(&firmware(data, 0x0800_8000))
    };
    assert_eq!(check(0x2000_0000), Ok(()));
    assert_eq!(check(0x2009_FFF0), Ok(()));
    assert_eq!(check(0x1FFF_FFFF), Err(ValidationError::InvalidVectorTable));
    assert_eq!(check(0x2009_FFF1), Err(ValidationError::InvalidVectorTable));
}

#[test]
fn the_reset_handler_has_to_be_thumb_code_in_the_application() {
    let check = |reset: u32| {
        let mut data: Vec<u8> = image(8);
        data[4..8].copy_from_slice(&reset.to_le_bytes());
        validate(&firmware(data, 0x0800_8000))
    };
    assert_eq!(check(0x0800_8001), Ok(()));
    assert_eq!(check(0x080F_FFFF), Ok(()));
    assert_eq!(check(0x0800_8000), Err(ValidationError::InvalidVectorTable));
    assert_eq!(check(0x0800_7FFF), Err(ValidationError::InvalidVectorTable));
    assert_eq!(check(0x0810_0001), Err(ValidationError::InvalidVectorTable));
    assert_eq!(check(0), Err(ValidationError::InvalidVectorTable));
    assert_eq!(check(u32::MAX), Err(ValidationError::InvalidVectorTable));
}
