//! What files are loaded as which images.

use crate::crc::stm32_crc;
use crate::elf::{elf_memory, ElfError};
use crate::firmware::{
    file_format, format_name, highest, image_bytes, is_highest, is_image, is_lowest,
    law_image_holds_the_memory, lemma_highest_exists, lemma_lowest_exists, loaded_bytes, lowest,
    validity, FileFormat, ImageError, LoadError, ValidationError,
};
use crate::hex::{hex_memory, HexError};
use crate::text_laws::{are_same_letters, is_same_letter, law_case_is_thirty_two_codes};
use crate::types::Firmware;
use vstd::prelude::*;
use vstd::utf8::{decode_utf8, valid_utf8};

verus! {

/// The number in four bytes from an offset on, the lowest byte first.
pub open spec fn vector(data: Seq<u8>, offset: int) -> int {
    data[offset] + data[offset + 1] * 0x100 + data[offset + 2] * 0x1_0000 + data[offset + 3]
        * 0x100_0000
}

/// Whether an image starts with a stack pointer into the RAM, and the odd address of a reset
/// handler in the application region.
pub open spec fn has_vectors(data: Seq<u8>) -> bool {
    &&& 0x2000_0000 <= vector(data, 0) <= 0x2009_FFF0
    &&& vector(data, 4) % 2 == 1
    &&& 0x0800_8000 < vector(data, 4) <= 0x080F_FFFF
}

/// An image can be programmed exactly where it is at the address of the application, holds two
/// vectors that are right, and fits in the application region. What is wrong first is the error.
pub proof fn law_an_image_can_be_programmed(data: Seq<u8>, address: u32)
    ensures
        validity(data, address) == (if data.len() < 8 {
            Err(ValidationError::IncompleteVectorTable)
        } else if address != 0x0800_8000 {
            Err(ValidationError::WrongAddress)
        } else if data.len() > 0xF_8000 {
            Err(ValidationError::TooLarge)
        } else if has_vectors(data) {
            Ok(())
        } else {
            Err(ValidationError::InvalidVectorTable)
        }),
{
}

/// Whether bytes are the image of memory: they reach from the address of the application, where
/// memory starts, to where it ends, and hold what memory holds, and 0xFF where it holds nothing.
pub open spec fn is_image_of(data: Seq<u8>, memory: Map<u32, u8>) -> bool {
    &&& data.len() > 0
    &&& memory.contains_key(0x0800_8000)
    &&& memory.contains_key((0x0800_7FFF + data.len()) as u32)
    &&& 0x0800_7FFF + data.len() <= u32::MAX
    &&& forall|address: u32| #[trigger]
        memory.contains_key(address) ==> 0x0800_8000 <= address < 0x0800_8000 + data.len()
    &&& forall|i: int|
        0 <= i < data.len() ==> #[trigger] data[i] == if memory.contains_key(
            (0x0800_8000 + i) as u32,
        ) {
            memory[(0x0800_8000 + i) as u32]
        } else {
            0xFF
        }
}

/// Memory makes exactly the image that reaches from the address of the application to its end. It
/// makes none where it is empty, or where it starts anywhere else, which the error names.
pub proof fn law_memory_makes_its_image(memory: Map<u32, u8>, data: Seq<u8>, first: u32)
    ensures
        image_bytes(memory) == Ok::<Seq<u8>, ImageError>(data) <==> is_image_of(data, memory),
        image_bytes(memory) == Err::<Seq<u8>, ImageError>(ImageError::NoFlashData) <==> forall|
            address: u32,
        | !memory.contains_key(address),
        image_bytes(memory) == Err::<Seq<u8>, ImageError>(ImageError::WrongStart { first })
            <==> first != 0x0800_8000 && memory.contains_key(first) && forall|address: u32|
            #[trigger] memory.contains_key(address) ==> first <= address,
{
    if memory.dom().is_empty() {
        assert forall|address: u32| !memory.contains_key(address) by {
            assert(memory.dom() =~= Set::<u32>::empty());
        }
    } else {
        let some = choose|address: u32| memory.dom().contains(address);
        assert(memory.dom().contains(some)) by {
            if forall|address: u32| !memory.dom().contains(address) {
                assert(memory.dom() =~= Set::empty());
            }
        }
        lemma_lowest_exists(memory, some);
        lemma_highest_exists(memory, some);
        assert(memory.contains_key(some));
        let low = lowest(memory);
        let high = highest(memory);
        assert(is_lowest(memory, low) && is_highest(memory, high));
        if low == 0x0800_8000 {
            let image = image_bytes(memory)->Ok_0;
            law_image_holds_the_memory(memory);
            if is_image_of(data, memory) {
                assert(data.len() == image.len());
                assert(data =~= image);
            }
            assert(image.len() == high - low + 1);
        }
    }
}

/// Whether the name of a file has this ending, in whatever case.
pub open spec fn ends_in(extension: Seq<char>, ending: Seq<char>) -> bool {
    are_same_letters(extension, ending)
}

/// What a file is by the ending of its name, and by its first bytes where that says nothing.
pub proof fn law_files_are_known_by_their_endings(extension: Seq<char>, contents: Seq<u8>)
    ensures
        ({
            let bin = ends_in(extension, seq!['b', 'i', 'n']);
            let hex = ends_in(extension, seq!['h', 'e', 'x']) || ends_in(
                extension,
                seq!['i', 'h', 'e', 'x'],
            );
            let elf = ends_in(extension, seq!['e', 'l', 'f']) || ends_in(
                extension,
                seq!['a', 'x', 'f'],
            );
            let magic = contents.len() >= 4 && contents[0] == 0x7F && contents[1] == 0x45
                && contents[2] == 0x4C && contents[3] == 0x46;
            &&& file_format(extension, contents) is Bin <==> bin
            &&& file_format(extension, contents) is Hex <==> hex
            &&& file_format(extension, contents) is Elf <==> elf || (!bin && !hex && magic)
        }),
{
    reveal_strlit("bin");
    reveal_strlit("hex");
    reveal_strlit("ihex");
    reveal_strlit("elf");
    reveal_strlit("axf");
    assert("bin"@ =~= seq!['b', 'i', 'n']);
    assert("hex"@ =~= seq!['h', 'e', 'x']);
    assert("ihex"@ =~= seq!['i', 'h', 'e', 'x']);
    assert("elf"@ =~= seq!['e', 'l', 'f']);
    assert("axf"@ =~= seq!['a', 'x', 'f']);
    law_case_is_thirty_two_codes(extension, "bin"@);
    law_case_is_thirty_two_codes(extension, "hex"@);
    law_case_is_thirty_two_codes(extension, "ihex"@);
    law_case_is_thirty_two_codes(extension, "elf"@);
    law_case_is_thirty_two_codes(extension, "axf"@);
    lemma_endings_differ(extension);
}

/// No two endings are the same but for case.
proof fn lemma_endings_differ(extension: Seq<char>)
    ensures
        ends_in(extension, seq!['b', 'i', 'n']) ==> !ends_in(extension, seq!['h', 'e', 'x'])
            && !ends_in(extension, seq!['e', 'l', 'f']) && !ends_in(extension, seq!['a', 'x', 'f'])
            && !ends_in(extension, seq!['i', 'h', 'e', 'x']),
        ends_in(extension, seq!['h', 'e', 'x']) ==> !ends_in(extension, seq!['e', 'l', 'f'])
            && !ends_in(extension, seq!['a', 'x', 'f']),
        ends_in(extension, seq!['i', 'h', 'e', 'x']) ==> !ends_in(extension, seq!['e', 'l', 'f'])
            && !ends_in(extension, seq!['a', 'x', 'f']),
{
    if extension.len() == 3 {
        let bin = seq!['b', 'i', 'n'];
        let hex = seq!['h', 'e', 'x'];
        let elf = seq!['e', 'l', 'f'];
        let axf = seq!['a', 'x', 'f'];
        let c = extension[0];
        assert(bin[0] == 'b' && hex[0] == 'h' && elf[0] == 'e' && axf[0] == 'a');
        assert('b' as int == 0x62 && 'h' as int == 0x68 && 'e' as int == 0x65 && 'a' as int
            == 0x61);
        assert(ends_in(extension, bin) ==> is_same_letter(c, bin[0]));
        assert(ends_in(extension, hex) ==> is_same_letter(c, hex[0]));
        assert(ends_in(extension, elf) ==> is_same_letter(c, elf[0]));
        assert(ends_in(extension, axf) ==> is_same_letter(c, axf[0]));
    }
}

/// A file gives an image exactly where it can be read as what it is and the image can be
/// programmed. A binary file is its own image; a HEX file is text, and it and an ELF file give the
/// image of the memory that they describe.
pub proof fn law_a_file_gives_its_image(extension: Seq<char>, contents: Seq<u8>, data: Seq<u8>)
    ensures
        loaded_bytes(extension, contents) == Ok::<Seq<u8>, LoadError>(data) <==> {
            &&& 8 <= data.len() <= 0xF_8000
            &&& has_vectors(data)
            &&& match file_format(extension, contents) {
                FileFormat::Bin => data == contents,
                FileFormat::Hex => valid_utf8(contents) && (hex_memory(decode_utf8(contents))
                    matches Ok(memory) && is_image_of(data, memory)),
                FileFormat::Elf => elf_memory(contents) matches Ok(memory) && is_image_of(
                    data,
                    memory,
                ),
                FileFormat::Unknown => false,
            }
        },
{
    law_an_image_can_be_programmed(data, 0x0800_8000);
    if let Ok(memory) = hex_memory(decode_utf8(contents)) {
        law_memory_makes_its_image(memory, data, 0);
        if let Ok(image) = image_bytes(memory) {
            law_an_image_can_be_programmed(image, 0x0800_8000);
        }
    }
    if let Ok(memory) = elf_memory(contents) {
        law_memory_makes_its_image(memory, data, 0);
        if let Ok(image) = image_bytes(memory) {
            law_an_image_can_be_programmed(image, 0x0800_8000);
        }
    }
    law_an_image_can_be_programmed(contents, 0x0800_8000);
}

/// A file is refused for the first thing that is wrong with it: what it is, that it holds nothing
/// or no text, what it describes, the image that this makes, or that it cannot be programmed.
pub proof fn law_a_file_is_refused_for_its_fault(
    extension: Seq<char>,
    contents: Seq<u8>,
    fault: LoadError,
)
    ensures
        loaded_bytes(extension, contents) == Err::<Seq<u8>, LoadError>(fault) <==> {
            let format = file_format(extension, contents);
            let hex = hex_memory(decode_utf8(contents));
            let elf = elf_memory(contents);
            match fault {
                LoadError::UnsupportedFormat => format is Unknown,
                LoadError::EmptyBin => format is Bin && contents.len() == 0,
                LoadError::NotText => format is Hex && !valid_utf8(contents),
                LoadError::Hex(error) => format is Hex && valid_utf8(contents) && hex == Err::<
                    Map<u32, u8>,
                    HexError,
                >(error),
                LoadError::Elf(error) => format is Elf && elf == Err::<Map<u32, u8>, ElfError>(
                    error,
                ),
                LoadError::Image(error) => {
                    ||| format is Hex && valid_utf8(contents) && (hex matches Ok(memory)
                        && image_bytes(memory) == Err::<Seq<u8>, ImageError>(error))
                    ||| format is Elf && (elf matches Ok(memory) && image_bytes(memory) == Err::<
                        Seq<u8>,
                        ImageError,
                    >(error))
                },
                LoadError::Validation(error) => exists|data: Seq<u8>|
                    {
                        &&& #[trigger] validity(data, 0x0800_8000) == Err::<(), ValidationError>(
                            error,
                        )
                        &&& match format {
                            FileFormat::Bin => data == contents && data.len() > 0,
                            FileFormat::Hex => valid_utf8(contents) && (hex matches Ok(memory)
                                && is_image_of(data, memory)),
                            FileFormat::Elf => elf matches Ok(memory) && is_image_of(data, memory),
                            FileFormat::Unknown => false,
                        }
                    },
            }
        },
{
    assert forall|memory: Map<u32, u8>, data: Seq<u8>| #[trigger]
        is_image_of(data, memory) implies image_bytes(memory) == Ok::<Seq<u8>, ImageError>(
        data,
    ) by {
        law_memory_makes_its_image(memory, data, 0);
    }
    if let Ok(memory) = hex_memory(decode_utf8(contents)) {
        if let Ok(data) = image_bytes(memory) {
            law_memory_makes_its_image(memory, data, 0);
            assert(validity(data, 0x0800_8000) is Ok || validity(data, 0x0800_8000) is Err);
        }
    }
    if let Ok(memory) = elf_memory(contents) {
        if let Ok(data) = image_bytes(memory) {
            law_memory_makes_its_image(memory, data, 0);
            assert(validity(data, 0x0800_8000) is Ok || validity(data, 0x0800_8000) is Err);
        }
    }
    assert(validity(contents, 0x0800_8000) is Ok || validity(contents, 0x0800_8000) is Err);
}

/// A firmware holds its image, the address of the application and the CRC of all of the image.
pub proof fn law_a_firmware_holds_its_image(firmware: Firmware, data: Seq<u8>, format: Seq<char>)
    ensures
        is_image(firmware, data, format) <==> {
            &&& firmware.data@ == data
            &&& firmware.address == 0x0800_8000
            &&& firmware.crc32 == stm32_crc(data)
            &&& firmware.format@ == format
        },
{
}

/// A firmware goes by three capital letters.
pub proof fn law_formats_have_their_names()
    ensures
        format_name(FileFormat::Bin) == seq!['B', 'I', 'N'],
        format_name(FileFormat::Hex) == seq!['H', 'E', 'X'],
        format_name(FileFormat::Elf) == seq!['E', 'L', 'F'],
{
    reveal_strlit("BIN");
    reveal_strlit("HEX");
    reveal_strlit("ELF");
}

} // verus!
