//! From the contents of a file to a firmware image.

use crate::crc::{crc32_stm32, stm32_crc};
use crate::elf::{
    elf_memory, has_elf_magic, little_endian_32, load_elf, starts_with_elf_magic, word, ElfError,
};
use crate::flash::plan::{
    block_address, block_at, block_count, law_blocks_stay_in_the_inactive_bank,
};
use crate::hex::{hex_memory, load_hex, HexError};
use crate::protocol::{
    INACTIVE_APPLICATION_ADDRESS, LOGICAL_APPLICATION_ADDRESS, MAXIMUM_IMAGE_SIZE,
};
use crate::text::{
    eq_ignoring_case, equal_ignoring_case, lemma_equal_ignoring_case_carries_over,
    lemma_equal_ignoring_case_is_symmetric,
};
use crate::types::Firmware;
use std::collections::BTreeMap;
use vstd::prelude::*;
use vstd::utf8::{decode_utf8, valid_utf8};

verus! {

/// The lowest and the highest stack pointer that lie in the RAM.
pub const STACK_START: u32 = 0x2000_0000;

pub const STACK_END: u32 = 0x2009_FFF0;

/// The length of the part of the vector table that is looked at.
pub const VECTOR_TABLE_SIZE: usize = 8;

/// The file formats, by the extension of a file's name.
#[derive(Debug, Clone, Copy, PartialEq, Eq, Structural)]
pub enum FileFormat {
    Bin,
    Hex,
    Elf,
    /// The extension says nothing: the first bytes decide.
    Unknown,
}

/// Why memory makes no image.
#[derive(Debug, Clone, Copy, PartialEq, Eq, Structural)]
pub enum ImageError {
    NoFlashData,
    WrongStart { first: u32 },
}

/// Why an image cannot be programmed.
#[derive(Debug, Clone, Copy, PartialEq, Eq, Structural)]
pub enum ValidationError {
    IncompleteVectorTable,
    WrongAddress,
    TooLarge,
    InvalidVectorTable,
}

/// Why a file gives no firmware.
#[derive(Debug, Clone, Copy, PartialEq, Eq, Structural)]
pub enum LoadError {
    UnsupportedFormat,
    EmptyBin,
    /// A HEX file that is no UTF-8 text.
    NotText,
    Hex(HexError),
    Elf(ElfError),
    Image(ImageError),
    Validation(ValidationError),
}

/// Declares `std::str::Utf8Error`. Nothing is said of what is inside.
#[verifier::external_type_specification]
#[verifier::external_body]
pub struct ExUtf8Error(std::str::Utf8Error);

/// `std::str::from_utf8` gives the text that bytes encode, and an error exactly where they are no
/// UTF-8.
pub assume_specification[ std::str::from_utf8 ](bytes: &[u8]) -> (result: Result<
    &str,
    std::str::Utf8Error,
>)
    ensures
        result is Ok <==> valid_utf8(bytes@),
        result matches Ok(text) ==> text@ == decode_utf8(bytes@),
;

/// The format that an extension stands for, in whatever case it is written.
pub open spec fn extension_format(extension: Seq<char>) -> FileFormat {
    if equal_ignoring_case(extension, "bin"@) {
        FileFormat::Bin
    } else if equal_ignoring_case(extension, "hex"@) || equal_ignoring_case(extension, "ihex"@) {
        FileFormat::Hex
    } else if equal_ignoring_case(extension, "elf"@) || equal_ignoring_case(extension, "axf"@) {
        FileFormat::Elf
    } else {
        FileFormat::Unknown
    }
}

/// The format of a file.
pub open spec fn file_format(extension: Seq<char>, contents: Seq<u8>) -> FileFormat {
    match extension_format(extension) {
        FileFormat::Unknown => if starts_with_elf_magic(contents) {
            FileFormat::Elf
        } else {
            FileFormat::Unknown
        },
        format => format,
    }
}

/// Under what name a firmware goes by its format.
pub open spec fn format_name(format: FileFormat) -> Seq<char> {
    match format {
        FileFormat::Bin => "BIN"@,
        FileFormat::Hex => "HEX"@,
        FileFormat::Elf => "ELF"@,
        FileFormat::Unknown => ""@,
    }
}

/// Whether an address is the lowest one that holds a byte.
pub open spec fn is_lowest(memory: Map<u32, u8>, address: u32) -> bool {
    memory.contains_key(address) && forall|other: u32| #[trigger]
        memory.contains_key(other) ==> address <= other
}

/// Whether an address is the highest one that holds a byte.
pub open spec fn is_highest(memory: Map<u32, u8>, address: u32) -> bool {
    memory.contains_key(address) && forall|other: u32| #[trigger]
        memory.contains_key(other) ==> other <= address
}

pub open spec fn lowest(memory: Map<u32, u8>) -> u32 {
    choose|address: u32| is_lowest(memory, address)
}

pub open spec fn highest(memory: Map<u32, u8>) -> u32 {
    choose|address: u32| is_highest(memory, address)
}

/// What memory holds from one address to another, with erased bytes where it holds nothing.
pub open spec fn mapped_bytes(memory: Map<u32, u8>, first: u32, last: u32) -> Seq<u8> {
    Seq::new(
        (last - first + 1) as nat,
        |i: int|
            if memory.contains_key((first + i) as u32) {
                memory[(first + i) as u32]
            } else {
                0xFF
            },
    )
}

/// The image that memory makes. It has to start where the application does.
pub open spec fn image_bytes(memory: Map<u32, u8>) -> Result<Seq<u8>, ImageError> {
    if memory.dom().is_empty() {
        Err(ImageError::NoFlashData)
    } else if lowest(memory) != LOGICAL_APPLICATION_ADDRESS {
        Err(ImageError::WrongStart { first: lowest(memory) })
    } else {
        Ok(mapped_bytes(memory, lowest(memory), highest(memory)))
    }
}

/// Whether the first two vectors are those of an application: a stack pointer into the RAM, and a
/// reset handler, with the Thumb bit, in the application region.
pub open spec fn has_valid_vector_table(data: Seq<u8>) -> bool {
    let stack_pointer = little_endian_32(data, 0);
    let reset_handler = little_endian_32(data, 4);
    &&& STACK_START <= stack_pointer <= STACK_END
    &&& reset_handler % 2 == 1
    &&& LOGICAL_APPLICATION_ADDRESS <= reset_handler - 1 < LOGICAL_APPLICATION_ADDRESS
        + MAXIMUM_IMAGE_SIZE
}

/// Whether an image can be programmed.
pub open spec fn validity(data: Seq<u8>, address: u32) -> Result<(), ValidationError> {
    if data.len() < VECTOR_TABLE_SIZE {
        Err(ValidationError::IncompleteVectorTable)
    } else if address != LOGICAL_APPLICATION_ADDRESS {
        Err(ValidationError::WrongAddress)
    } else if data.len() > MAXIMUM_IMAGE_SIZE {
        Err(ValidationError::TooLarge)
    } else if !has_valid_vector_table(data) {
        Err(ValidationError::InvalidVectorTable)
    } else {
        Ok(())
    }
}

/// The image in a file, before it is validated.
pub open spec fn file_bytes(extension: Seq<char>, contents: Seq<u8>) -> Result<Seq<u8>, LoadError> {
    match file_format(extension, contents) {
        FileFormat::Bin => if contents.len() == 0 {
            Err(LoadError::EmptyBin)
        } else {
            Ok(contents)
        },
        FileFormat::Hex => if !valid_utf8(contents) {
            Err(LoadError::NotText)
        } else {
            match hex_memory(decode_utf8(contents)) {
                Err(error) => Err(LoadError::Hex(error)),
                Ok(memory) => match image_bytes(memory) {
                    Err(error) => Err(LoadError::Image(error)),
                    Ok(data) => Ok(data),
                },
            }
        },
        FileFormat::Elf => match elf_memory(contents) {
            Err(error) => Err(LoadError::Elf(error)),
            Ok(memory) => match image_bytes(memory) {
                Err(error) => Err(LoadError::Image(error)),
                Ok(data) => Ok(data),
            },
        },
        FileFormat::Unknown => Err(LoadError::UnsupportedFormat),
    }
}

/// The image in a file.
pub open spec fn loaded_bytes(extension: Seq<char>, contents: Seq<u8>) -> Result<
    Seq<u8>,
    LoadError,
> {
    match file_bytes(extension, contents) {
        Err(error) => Err(error),
        Ok(data) => match validity(data, LOGICAL_APPLICATION_ADDRESS) {
            Err(error) => Err(LoadError::Validation(error)),
            Ok(()) => Ok(data),
        },
    }
}

/// Whether a firmware is the image `data` at the address of the application.
pub open spec fn is_image(firmware: Firmware, data: Seq<u8>, format: Seq<char>) -> bool {
    &&& firmware.data@ == data
    &&& firmware.address == LOGICAL_APPLICATION_ADDRESS
    &&& firmware.crc32 == stm32_crc(data)
    &&& firmware.format@ == format
}

/// The format that an extension stands for.
pub fn format_of_extension(extension: &str) -> (format: FileFormat)
    ensures
        format == extension_format(extension@),
{
    if eq_ignoring_case(extension, "bin") {
        FileFormat::Bin
    } else if eq_ignoring_case(extension, "hex") || eq_ignoring_case(extension, "ihex") {
        FileFormat::Hex
    } else if eq_ignoring_case(extension, "elf") || eq_ignoring_case(extension, "axf") {
        FileFormat::Elf
    } else {
        FileFormat::Unknown
    }
}

/// The firmware in a file that holds nothing but the image.
pub fn load_bin(data: Vec<u8>) -> (result: Result<Firmware, LoadError>)
    ensures
        match result {
            Ok(firmware) => data@.len() > 0 && is_image(firmware, data@, "BIN"@),
            Err(error) => data@.len() == 0 && error == LoadError::EmptyBin,
        },
{
    if data.len() == 0 {
        return Err(LoadError::EmptyBin);
    }
    Ok(
        Firmware {
            crc32: crc32_stm32(data.as_slice()),
            data,
            address: LOGICAL_APPLICATION_ADDRESS,
            format: "BIN",
        },
    )
}

proof fn lemma_lowest_and_highest(memory: Map<u32, u8>, first: u32, last: u32)
    requires
        is_lowest(memory, first),
        is_highest(memory, last),
    ensures
        lowest(memory) == first,
        highest(memory) == last,
{
}

/// The addresses of the first and the last byte in memory.
fn bounds(memory: &BTreeMap<u32, u8>) -> (result: Option<(u32, u32)>)
    ensures
        match result {
            Some((first, last)) => is_lowest(memory@, first) && is_highest(memory@, last),
            None => memory@.dom().is_empty(),
        },
{
    let mut result: Option<(u32, u32)> = None;
    for key in it: memory.keys()
        invariant
            it.seq().unref().to_set() == memory@.dom(),
            match result {
                Some((first, last)) => {
                    &&& memory@.contains_key(first)
                    &&& memory@.contains_key(last)
                    &&& forall|i: int|
                        0 <= i < it.index() ==> first <= *(#[trigger] it.seq()[i]) <= last
                },
                None => it.index() == 0,
            },
    {
        let key: u32 = *key;
        proof {
            assert(it.seq().unref()[it.index() as int] == key);
            assert(it.seq().unref().to_set().contains(key));
        }
        result = match result {
            None => Some((key, key)),
            Some((first, last)) => Some(
                (
                    if key < first {
                        key
                    } else {
                        first
                    },
                    if key > last {
                        key
                    } else {
                        last
                    },
                ),
            ),
        };
    }
    proof {
        let keys = vstd::std_specs::iter::IteratorSpec::remaining(&memory.keys());
        assert forall|other: u32| #[trigger] memory@.contains_key(other) implies exists|i: int|
            0 <= i < keys.len() && *(#[trigger] keys[i]) == other by {
            assert(keys.unref().to_set().contains(other));
            let i = choose|i: int| 0 <= i < keys.unref().len() && keys.unref()[i] == other;
            assert(*keys[i] == other);
        }
        if result is None {
            assert(memory@.dom() =~= Set::empty());
        }
    }
    result
}

/// The firmware that memory makes.
pub fn create_mapped(format: &'static str, memory: BTreeMap<u32, u8>) -> (result: Result<
    Firmware,
    ImageError,
>)
    ensures
        match result {
            Ok(firmware) => image_bytes(memory@) == Ok::<Seq<u8>, ImageError>(firmware.data@)
                && is_image(firmware, firmware.data@, format@),
            Err(error) => image_bytes(memory@) == Err::<Seq<u8>, ImageError>(error),
        },
{
    let (first, last) = match bounds(&memory) {
        None => {
            return Err(ImageError::NoFlashData);
        },
        Some((first, last)) => {
            proof {
                lemma_lowest_and_highest(memory@, first, last);
                assert(!memory@.dom().is_empty()) by {
                    assert(memory@.dom().contains(first));
                }
            }
            (first, last)
        },
    };
    if first != LOGICAL_APPLICATION_ADDRESS {
        return Err(ImageError::WrongStart { first });
    }
    let mut data: Vec<u8> = Vec::new();
    let mut offset: u32 = 0;
    let length: u32 = last - first + 1;
    while offset < length
        invariant
            offset <= length,
            length == last - first + 1,
            first + length <= u32::MAX + 1,
            data@.len() == offset,
            forall|i: int|
                0 <= i < offset ==> #[trigger] data@[i] == mapped_bytes(memory@, first, last)[i],
        decreases length - offset,
    {
        let value: u8 = match memory.get(&(first + offset)) {
            Some(value) => *value,
            None => 0xFF,
        };
        data.push(value);
        offset += 1;
    }
    assert(data@ =~= mapped_bytes(memory@, first, last));
    Ok(Firmware { crc32: crc32_stm32(data.as_slice()), data, address: first, format })
}

/// Checks that an image can be programmed.
pub fn validate(firmware: &Firmware) -> (result: Result<(), ValidationError>)
    ensures
        result == validity(firmware.data@, firmware.address),
{
    if firmware.data.len() < VECTOR_TABLE_SIZE {
        return Err(ValidationError::IncompleteVectorTable);
    }
    if firmware.address != LOGICAL_APPLICATION_ADDRESS {
        return Err(ValidationError::WrongAddress);
    }
    if firmware.data.len() > MAXIMUM_IMAGE_SIZE {
        return Err(ValidationError::TooLarge);
    }
    let stack_pointer: u32 = word(firmware.data.as_slice(), 0);
    let reset_handler: u32 = word(firmware.data.as_slice(), 4);
    let stack_valid: bool = stack_pointer >= STACK_START && stack_pointer <= STACK_END;
    let reset_valid: bool = reset_handler % 2 == 1 && reset_handler - 1
        >= LOGICAL_APPLICATION_ADDRESS && reset_handler - 1 < LOGICAL_APPLICATION_ADDRESS
        + MAXIMUM_IMAGE_SIZE as u32;
    if stack_valid && reset_valid {
        Ok(())
    } else {
        Err(ValidationError::InvalidVectorTable)
    }
}

/// The firmware that memory makes, with the error of a load.
fn map_image(format: &'static str, memory: BTreeMap<u32, u8>) -> (result: Result<
    Firmware,
    LoadError,
>)
    ensures
        match result {
            Ok(firmware) => image_bytes(memory@) == Ok::<Seq<u8>, ImageError>(firmware.data@)
                && is_image(firmware, firmware.data@, format@),
            Err(error) => image_bytes(memory@) matches Err(cause) && error == LoadError::Image(
                cause,
            ),
        },
{
    match create_mapped(format, memory) {
        Ok(firmware) => Ok(firmware),
        Err(error) => Err(LoadError::Image(error)),
    }
}

/// The firmware in a file, of which the extension of its name and the contents are given.
pub fn load(extension: &str, contents: Vec<u8>) -> (result: Result<Firmware, LoadError>)
    ensures
        match result {
            Ok(firmware) => loaded_bytes(extension@, contents@) == Ok::<Seq<u8>, LoadError>(
                firmware.data@,
            ) && is_image(
                firmware,
                firmware.data@,
                format_name(file_format(extension@, contents@)),
            ),
            Err(error) => loaded_bytes(extension@, contents@) == Err::<Seq<u8>, LoadError>(error),
        },
{
    let named: FileFormat = format_of_extension(extension);
    let format: FileFormat = match named {
        FileFormat::Unknown => if has_elf_magic(contents.as_slice()) {
            FileFormat::Elf
        } else {
            FileFormat::Unknown
        },
        format => format,
    };
    let loaded: Result<Firmware, LoadError> = match format {
        FileFormat::Bin => load_bin(contents),
        FileFormat::Hex => match std::str::from_utf8(contents.as_slice()) {
            Err(_) => Err(LoadError::NotText),
            Ok(text) => match load_hex(text) {
                Err(error) => Err(LoadError::Hex(error)),
                Ok(memory) => map_image("HEX", memory),
            },
        },
        FileFormat::Elf => match load_elf(contents.as_slice()) {
            Err(error) => Err(LoadError::Elf(error)),
            Ok(memory) => map_image("ELF", memory),
        },
        FileFormat::Unknown => Err(LoadError::UnsupportedFormat),
    };
    match loaded {
        Err(error) => Err(error),
        Ok(firmware) => match validate(&firmware) {
            Err(error) => Err(LoadError::Validation(error)),
            Ok(()) => Ok(firmware),
        },
    }
}

pub proof fn lemma_lowest_exists(memory: Map<u32, u8>, bound: u32)
    requires
        memory.contains_key(bound),
    ensures
        is_lowest(memory, lowest(memory)),
    decreases bound,
{
    if is_lowest(memory, bound) {
    } else {
        let other = choose|other: u32| #[trigger] memory.contains_key(other) && other < bound;
        lemma_lowest_exists(memory, other);
    }
}

pub proof fn lemma_highest_exists(memory: Map<u32, u8>, bound: u32)
    requires
        memory.contains_key(bound),
    ensures
        is_highest(memory, highest(memory)),
    decreases u32::MAX - bound,
{
    if is_highest(memory, bound) {
    } else {
        let other = choose|other: u32| #[trigger] memory.contains_key(other) && other > bound;
        lemma_highest_exists(memory, other);
    }
}

/// An image holds every byte of the memory that it is made from, at the distance of its address
/// from that of the application, and is filled with erased bytes. It reaches from the lowest to
/// the highest address.
pub proof fn law_image_holds_the_memory(memory: Map<u32, u8>)
    requires
        image_bytes(memory) is Ok,
    ensures
        ({
            let data = image_bytes(memory)->Ok_0;
            &&& data.len() > 0
            &&& memory.contains_key(LOGICAL_APPLICATION_ADDRESS)
            &&& memory.contains_key((LOGICAL_APPLICATION_ADDRESS + data.len() - 1) as u32)
            &&& forall|address: u32| #[trigger]
                memory.contains_key(address) ==> LOGICAL_APPLICATION_ADDRESS <= address
                    < LOGICAL_APPLICATION_ADDRESS + data.len() && data[address
                    - LOGICAL_APPLICATION_ADDRESS] == memory[address]
            &&& forall|i: int|
                0 <= i < data.len() && !memory.contains_key(
                    (LOGICAL_APPLICATION_ADDRESS + i) as u32,
                ) ==> #[trigger] data[i] == 0xFF
        }),
{
    let some = choose|address: u32| memory.dom().contains(address);
    assert(memory.dom().contains(some)) by {
        if forall|address: u32| !memory.dom().contains(address) {
            assert(memory.dom() =~= Set::empty());
        }
    }
    lemma_lowest_exists(memory, some);
    lemma_highest_exists(memory, some);
}

/// A firmware that was loaded can be programmed: it holds a vector table for the application, and
/// every block of it is written inside the application region of the inactive bank.
pub proof fn law_loaded_firmware_fits_the_inactive_bank(
    extension: Seq<char>,
    contents: Seq<u8>,
    index: int,
)
    requires
        loaded_bytes(extension, contents) is Ok,
    ensures
        ({
            let data = loaded_bytes(extension, contents)->Ok_0;
            let block = block_at(data.len() as int, index);
            &&& VECTOR_TABLE_SIZE <= data.len() <= MAXIMUM_IMAGE_SIZE
            &&& has_valid_vector_table(data)
            &&& 0 <= index < block_count(data.len() as int) ==> INACTIVE_APPLICATION_ADDRESS
                <= block_address(block) && block_address(block) + block.length
                <= INACTIVE_APPLICATION_ADDRESS + MAXIMUM_IMAGE_SIZE
        }),
{
    let data = loaded_bytes(extension, contents)->Ok_0;
    if 0 <= index < block_count(data.len() as int) {
        law_blocks_stay_in_the_inactive_bank(data.len() as int, index);
    }
}

/// The extension of a file's name counts in whatever case it is written.
pub proof fn law_extension_case_is_ignored(left: Seq<char>, right: Seq<char>, contents: Seq<u8>)
    requires
        equal_ignoring_case(left, right),
    ensures
        file_format(left, contents) == file_format(right, contents),
        loaded_bytes(left, contents) == loaded_bytes(right, contents),
{
    lemma_equal_ignoring_case_carries_over("bin"@, left, right);
    lemma_equal_ignoring_case_carries_over("hex"@, left, right);
    lemma_equal_ignoring_case_carries_over("ihex"@, left, right);
    lemma_equal_ignoring_case_carries_over("elf"@, left, right);
    lemma_equal_ignoring_case_carries_over("axf"@, left, right);
    lemma_equal_ignoring_case_is_symmetric("bin"@, left);
    lemma_equal_ignoring_case_is_symmetric("hex"@, left);
    lemma_equal_ignoring_case_is_symmetric("ihex"@, left);
    lemma_equal_ignoring_case_is_symmetric("elf"@, left);
    lemma_equal_ignoring_case_is_symmetric("axf"@, left);
    lemma_equal_ignoring_case_is_symmetric("bin"@, right);
    lemma_equal_ignoring_case_is_symmetric("hex"@, right);
    lemma_equal_ignoring_case_is_symmetric("ihex"@, right);
    lemma_equal_ignoring_case_is_symmetric("elf"@, right);
    lemma_equal_ignoring_case_is_symmetric("axf"@, right);
}

} // verus!
