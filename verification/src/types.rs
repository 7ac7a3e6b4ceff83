//! Firmware images, bootloader information and ECU definitions.

use crate::text::{
    ascii_lower, characters, digit_value, digits, equal_ignoring_case, is_white_space,
    law_case_of_digits_is_ignored, law_digits_are_read_back,
    law_trim_ignores_white_space_at_the_ends, lemma_case_of_a_character, lemma_trim_keeps, number,
    parse_number, skip_white_space, trim, trim_range, trim_start, word_end, word_length, words,
    NumberError,
};
use vstd::prelude::*;

verus! {

/// A firmware image, ready to be programmed.
#[derive(Debug, Clone)]
pub struct Firmware {
    pub data: Vec<u8>,
    pub address: u32,
    pub crc32: u32,
    pub format: &'static str,
}

/// What a bootloader reports of itself.
#[derive(Debug, Clone, Copy, PartialEq, Eq, Structural)]
pub struct BootInfo {
    pub version: u8,
    pub bank_swap_enabled: bool,
}

impl BootInfo {
    /// The major version number, in the upper half of the version byte.
    pub fn major(&self) -> (major: u8)
        ensures
            major == self.version / 16,
    {
        let version: u8 = self.version;
        assert(version >> 4 == version / 16) by (bit_vector);
        version >> 4
    }

    /// The minor version number, in the lower half of the version byte.
    pub fn minor(&self) -> (minor: u8)
        ensures
            minor == self.version % 16,
    {
        let version: u8 = self.version;
        assert(version & 0x0F == version % 16) by (bit_vector);
        version & 0x0F
    }
}

/// The configuration: the bit rates in use and the ECUs on the bus.
#[derive(Debug)]
pub struct ConfigFile {
    pub supported_bit_rates: Vec<u32>,
    pub ecus: Vec<EcuDefinition>,
}

/// An ECU, with its identifiers as the configuration writes them.
#[derive(Debug)]
pub struct EcuDefinition {
    pub name: String,
    pub label: String,
    pub request_id: String,
    pub response_id: String,
    pub write_data_id: String,
    pub application_boot_request_id: String,
    pub application_boot_request_data: String,
}

impl Clone for EcuDefinition {
    fn clone(&self) -> (copy: Self)
        ensures
            copy == *self,
    {
        EcuDefinition {
            name: self.name.clone(),
            label: self.label.clone(),
            request_id: self.request_id.clone(),
            response_id: self.response_id.clone(),
            write_data_id: self.write_data_id.clone(),
            application_boot_request_id: self.application_boot_request_id.clone(),
            application_boot_request_data: self.application_boot_request_data.clone(),
        }
    }
}

/// Why the data of a boot request cannot be sent.
#[derive(Debug, Clone, Copy, PartialEq, Eq, Structural)]
pub enum PayloadError {
    Number(NumberError),
    /// There is no byte, or there are more than eight.
    Length,
}

/// Whether a text starts with `0x` or `0X`.
pub open spec fn has_hex_prefix(text: Seq<char>) -> bool {
    text.len() >= 2 && text[0] == '0' && (text[1] == 'x' || text[1] == 'X')
}

/// The identifier that a text stands for: hexadecimal behind `0x` or `0X`, decimal otherwise,
/// with white space around it.
pub open spec fn identifier(text: Seq<char>) -> Result<u32, NumberError> {
    let trimmed = trim(text);
    let value = if has_hex_prefix(trimmed) {
        number(trimmed.skip(2), 16, u32::MAX as nat)
    } else {
        number(trimmed, 10, u32::MAX as nat)
    };
    match value {
        Ok(value) => Ok(value as u32),
        Err(error) => Err(error),
    }
}

/// Text without the `0x` at its start, however often it stands there.
pub open spec fn without_hex_prefixes(text: Seq<char>) -> Seq<char>
    decreases text.len(),
{
    if text.len() >= 2 && text[0] == '0' && text[1] == 'x' {
        without_hex_prefixes(text.skip(2))
    } else {
        text
    }
}

/// The bytes that words in hexadecimal stand for. The first word that is no byte decides the
/// error.
pub open spec fn word_bytes(words: Seq<Seq<char>>) -> Result<Seq<u8>, NumberError>
    decreases words.len(),
{
    if words.len() == 0 {
        Ok(Seq::empty())
    } else {
        match number(without_hex_prefixes(words[0]), 16, u8::MAX as nat) {
            Err(error) => Err(error),
            Ok(value) => match word_bytes(words.skip(1)) {
                Err(error) => Err(error),
                Ok(rest) => Ok(seq![value as u8] + rest),
            },
        }
    }
}

/// The payload of a boot request: one to eight bytes, each a word in hexadecimal.
pub open spec fn boot_payload(text: Seq<char>) -> Result<Seq<u8>, PayloadError> {
    match word_bytes(words(text)) {
        Err(error) => Err(PayloadError::Number(error)),
        Ok(bytes) => if 1 <= bytes.len() <= 8 {
            Ok(bytes)
        } else {
            Err(PayloadError::Length)
        },
    }
}

impl EcuDefinition {
    /// The identifier of command frames.
    pub fn request_can_id(&self) -> (result: Result<u32, NumberError>)
        ensures
            result == identifier(self.request_id@),
    {
        parse_u32(self.request_id.as_str())
    }

    /// The identifier of the frames that the bootloader answers with.
    pub fn response_can_id(&self) -> (result: Result<u32, NumberError>)
        ensures
            result == identifier(self.response_id@),
    {
        parse_u32(self.response_id.as_str())
    }

    /// The identifier of the frames that carry image bytes.
    pub fn write_data_can_id(&self) -> (result: Result<u32, NumberError>)
        ensures
            result == identifier(self.write_data_id@),
    {
        parse_u32(self.write_data_id.as_str())
    }

    /// The identifier of the frame that asks the application to start the bootloader.
    pub fn boot_request_can_id(&self) -> (result: Result<u32, NumberError>)
        ensures
            result == identifier(self.application_boot_request_id@),
    {
        parse_u32(self.application_boot_request_id.as_str())
    }

    /// The payload of the frame that asks the application to start the bootloader.
    pub fn boot_request_payload(&self) -> (result: Result<Vec<u8>, PayloadError>)
        ensures
            match result {
                Ok(payload) => boot_payload(self.application_boot_request_data@) == Ok::<
                    Seq<u8>,
                    PayloadError,
                >(payload@),
                Err(error) => boot_payload(self.application_boot_request_data@) == Err::<
                    Seq<u8>,
                    PayloadError,
                >(error),
            },
    {
        let chars: Vec<char> = characters(self.application_boot_request_data.as_str());
        let mut out: Vec<u8> = Vec::new();
        let mut position: usize = 0;
        let ghost all = word_bytes(words(chars@));
        proof {
            assert(chars@.skip(0) =~= chars@);
            if let Ok(rest) = all {
                assert(out@ + rest =~= rest);
            }
        }
        loop
            invariant
                position <= chars@.len(),
                all == word_bytes(words(self.application_boot_request_data@)),
                match word_bytes(words(chars@.skip(position as int))) {
                    Ok(rest) => all == Ok::<Seq<u8>, NumberError>(out@ + rest),
                    Err(error) => all == Err::<Seq<u8>, NumberError>(error),
                },
            ensures
                all == Ok::<Seq<u8>, NumberError>(out@),
            decreases chars@.len() - position,
        {
            let start: usize = skip_white_space(chars.as_slice(), position, chars.len());
            proof {
                assert(chars@.subrange(position as int, chars@.len() as int) =~= chars@.skip(
                    position as int,
                ));
                assert(chars@.subrange(start as int, chars@.len() as int) =~= chars@.skip(
                    start as int,
                ));
                assert(trim_start(chars@.skip(position as int)) == chars@.skip(start as int));
            }
            if start == chars.len() {
                assert(word_bytes(words(chars@.skip(position as int))) == Ok::<
                    Seq<u8>,
                    NumberError,
                >(Seq::empty()));
                assert(out@ + Seq::<u8>::empty() =~= out@);
                break;
            }
            let stop: usize = word_end(chars.as_slice(), start, chars.len());
            let ghost before = words(chars@.skip(position as int));
            let ghost word = chars@.subrange(start as int, stop as int);
            proof {
                crate::text::lemma_trim_start_length(chars@.skip(position as int));
                let rest = chars@.skip(start as int);
                assert(rest.take(stop - start) =~= word);
                assert(rest.skip(stop - start) =~= chars@.skip(stop as int));
                assert(word_length(rest) == stop - start);
                assert(before.skip(1) =~= words(chars@.skip(stop as int)));
                assert(before[0] == word);
                assert(word_length(rest) > 0);
            }
            let first: usize = skip_hex_prefixes(chars.as_slice(), start, stop);
            match parse_number(
                vstd::slice::slice_subrange(chars.as_slice(), first, stop),
                16,
                u8::MAX as u32,
            ) {
                Ok(value) => {
                    proof {
                        let value = number(without_hex_prefixes(word), 16, u8::MAX as nat)->Ok_0;
                        crate::text::lemma_number_limit(
                            without_hex_prefixes(word),
                            16,
                            u8::MAX as nat,
                        );
                        if let Ok(rest) = word_bytes(words(chars@.skip(stop as int))) {
                            assert(out@ + (seq![value as u8] + rest) =~= out@.push(value as u8)
                                + rest);
                        }
                    }
                    out.push(value as u8);
                },
                Err(error) => {
                    return Err(PayloadError::Number(error));
                },
            }
            position = stop;
        }
        if out.len() >= 1 && out.len() <= 8 {
            Ok(out)
        } else {
            Err(PayloadError::Length)
        }
    }
}

/// Where the characters from `start` to `end` go on behind every `0x` at their start.
fn skip_hex_prefixes(chars: &[char], start: usize, end: usize) -> (first: usize)
    requires
        start <= end <= chars@.len(),
    ensures
        start <= first <= end,
        chars@.subrange(first as int, end as int) == without_hex_prefixes(
            chars@.subrange(start as int, end as int),
        ),
{
    let mut first: usize = start;
    while end - first >= 2 && chars[first] == '0' && chars[first + 1] == 'x'
        invariant
            start <= first <= end <= chars@.len(),
            without_hex_prefixes(chars@.subrange(start as int, end as int))
                == without_hex_prefixes(chars@.subrange(first as int, end as int)),
        decreases end - first,
    {
        let ghost rest = chars@.subrange(first as int, end as int);
        assert(rest.skip(2) =~= chars@.subrange(first + 2, end as int));
        first += 2;
    }
    first
}

/// Reads an identifier.
pub fn parse_u32(text: &str) -> (result: Result<u32, NumberError>)
    ensures
        result == identifier(text@),
{
    let chars: Vec<char> = characters(text);
    assert(chars@.subrange(0, chars@.len() as int) =~= text@);
    let (start, end) = trim_range(chars.as_slice(), 0, chars.len());
    let ghost trimmed = chars@.subrange(start as int, end as int);
    if end - start >= 2 && chars[start] == '0' && (chars[start + 1] == 'x' || chars[start + 1]
        == 'X') {
        assert(trimmed.skip(2) =~= chars@.subrange(start + 2, end as int));
        parse_number(
            vstd::slice::slice_subrange(chars.as_slice(), start + 2, end),
            16,
            u32::MAX,
        )
    } else {
        parse_number(vstd::slice::slice_subrange(chars.as_slice(), start, end), 10, u32::MAX)
    }
}

/// A number is read back from its decimal digits, and from its hexadecimal ones behind `0x`, the
/// letters among them in whatever case.
pub proof fn law_identifiers_are_read_back(value: u32, text: Seq<char>)
    requires
        text == digits(value as nat, 10) || equal_ignoring_case(
            text,
            seq!['0', 'x'] + digits(value as nat, 16),
        ),
    ensures
        identifier(text) == Ok::<u32, NumberError>(value),
{
    if text == digits(value as nat, 10) {
        law_digits_are_read_back(value as nat, 10, u32::MAX as nat);
        assert(digit_value(text[0], 10) is Some);
        assert(digit_value(text.last(), 10) is Some);
        assert(text.len() >= 2 ==> digit_value(text[1], 10) is Some);
        lemma_trim_keeps(text);
    } else {
        let hexadecimal = digits(value as nat, 16);
        let whole = seq!['0', 'x'] + hexadecimal;
        let last = whole.len() - 1;
        law_digits_are_read_back(value as nat, 16, u32::MAX as nat);
        assert(digit_value(hexadecimal.last(), 16) is Some);
        assert(whole[last] == hexadecimal.last());
        assert(ascii_lower(text[0]) == ascii_lower('0') && ascii_lower(text[1]) == ascii_lower(
            'x',
        ) && ascii_lower(text[last]) == ascii_lower(whole[last])) by {
            assert(whole[0] == '0' && whole[1] == 'x');
        }
        lemma_case_of_a_character(text[0], '0');
        lemma_case_of_a_character(text[last], whole[last]);
        assert(text.last() == text[last]);
        lemma_trim_keeps(text);
        assert(equal_ignoring_case(text.skip(2), hexadecimal)) by {
            assert forall|i: int| 0 <= i < hexadecimal.len() implies ascii_lower(
                #[trigger] text.skip(2)[i],
            ) == ascii_lower(hexadecimal[i]) by {
                assert(text.skip(2)[i] == text[i + 2] && whole[i + 2] == hexadecimal[i]);
            }
        }
        law_case_of_digits_is_ignored(text.skip(2), hexadecimal, 16, u32::MAX as nat);
    }
}

/// White space around an identifier does not count.
pub proof fn law_white_space_around_an_identifier_is_ignored(text: Seq<char>, c: char)
    requires
        is_white_space(c),
    ensures
        identifier(seq![c] + text) == identifier(text),
        identifier(text.push(c)) == identifier(text),
{
    law_trim_ignores_white_space_at_the_ends(text, c);
}

} // verus!
