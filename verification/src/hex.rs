//! Intel HEX files.

use crate::memory::{insert_bytes, law_place_overlays, place, PlaceError};
use crate::text::{
    after_line, ascii_lower, characters, digit_value, digits_value, equal_ignoring_case, hex_digit,
    law_case_of_digits_is_ignored, lemma_case_and_trim, lemma_case_of_a_character,
    lemma_line_length, line_end, line_length, number, parse_number, trim, trim_range, NumberError,
};
use std::collections::BTreeMap;
use vstd::prelude::*;

verus! {

/// Why a text is no sequence of hexadecimal bytes.
#[derive(Debug, Clone, Copy, PartialEq, Eq, Structural)]
pub enum DecodeError {
    OddLength,
    InvalidDigit,
    /// A pair of bytes starts or ends inside a character.
    SplitCharacter,
}

/// Why a text is no Intel HEX file.
#[derive(Debug, Clone, Copy, PartialEq, Eq, Structural)]
pub enum HexError {
    InvalidRecord { line: usize },
    InvalidHex { line: usize, cause: DecodeError },
    RecordTooShort { line: usize },
    LengthMismatch { line: usize },
    ChecksumFailed { line: usize },
    InvalidExtendedSegment,
    InvalidExtendedLinear,
    UnsupportedRecordType { record_type: u8 },
    Place(PlaceError),
}

/// The largest address base that a record can set.
pub const MAXIMUM_BASE: u32 = 0xFFFF_0000;

/// The number of bytes of a character in UTF-8.
pub open spec fn utf8_width(c: char) -> nat {
    let code = c as u32;
    if code < 0x80 {
        1
    } else if code < 0x800 {
        2
    } else if code < 0x1_0000 {
        3
    } else {
        4
    }
}

/// The number of bytes of a text in UTF-8.
pub open spec fn utf8_length(text: Seq<char>) -> nat
    decreases text.len(),
{
    if text.len() == 0 {
        0
    } else {
        utf8_length(text.drop_last()) + utf8_width(text.last())
    }
}

/// The bytes that pairs of digits stand for. The first pair that is no byte decides the error.
pub open spec fn pair_bytes(text: Seq<char>) -> Result<Seq<u8>, DecodeError>
    decreases text.len(),
{
    if text.len() == 0 {
        Ok(Seq::empty())
    } else if utf8_width(text[0]) == 2 {
        Err(DecodeError::InvalidDigit)
    } else if utf8_width(text[0]) > 2 || text.len() == 1 || utf8_width(text[1]) > 1 {
        Err(DecodeError::SplitCharacter)
    } else {
        match number(text.take(2), 16, u8::MAX as nat) {
            Err(_) => Err(DecodeError::InvalidDigit),
            Ok(value) => match pair_bytes(text.skip(2)) {
                Err(error) => Err(error),
                Ok(rest) => Ok(seq![value as u8] + rest),
            },
        }
    }
}

/// The bytes that a text in hexadecimal stands for.
pub open spec fn hex_bytes(text: Seq<char>) -> Result<Seq<u8>, DecodeError> {
    if utf8_length(text) % 2 != 0 {
        Err(DecodeError::OddLength)
    } else {
        pair_bytes(text)
    }
}

/// The sum of bytes.
pub open spec fn byte_sum(bytes: Seq<u8>) -> nat
    decreases bytes.len(),
{
    if bytes.len() == 0 {
        0
    } else {
        byte_sum(bytes.drop_last()) + bytes.last() as nat
    }
}

/// The number that two bytes stand for, the upper one first.
pub open spec fn big_endian_16(bytes: Seq<u8>, offset: int) -> nat {
    bytes[offset] as nat * 0x100 + bytes[offset + 1] as nat
}

/// What comes of a line.
pub enum LineOutcome {
    /// The file goes on, with this address base and memory.
    Continue { base: u32, memory: Map<u32, u8> },
    /// The file ends here.
    EndOfFile,
    Failed(HexError),
}

/// What the bytes of a record do: a count, an offset, a type, the payload and a checksum.
pub open spec fn record_outcome(
    raw: Seq<u8>,
    line: usize,
    base: u32,
    memory: Map<u32, u8>,
) -> LineOutcome {
    if raw.len() < 5 {
        LineOutcome::Failed(HexError::RecordTooShort { line })
    } else if raw.len() != raw[0] + 5 {
        LineOutcome::Failed(HexError::LengthMismatch { line })
    } else if byte_sum(raw) % 256 != 0 {
        LineOutcome::Failed(HexError::ChecksumFailed { line })
    } else {
        let record_type = raw[3];
        let payload = raw.subrange(4, 4 + raw[0]);
        if record_type == 0x00 {
            match place(memory, base + big_endian_16(raw, 1), payload) {
                Ok(placed) => LineOutcome::Continue { base, memory: placed },
                Err(error) => LineOutcome::Failed(HexError::Place(error)),
            }
        } else if record_type == 0x01 {
            LineOutcome::EndOfFile
        } else if record_type == 0x02 {
            if payload.len() == 2 {
                LineOutcome::Continue { base: (big_endian_16(payload, 0) * 0x10) as u32, memory }
            } else {
                LineOutcome::Failed(HexError::InvalidExtendedSegment)
            }
        } else if record_type == 0x04 {
            if payload.len() == 2 {
                LineOutcome::Continue {
                    base: (big_endian_16(payload, 0) * 0x1_0000) as u32,
                    memory,
                }
            } else {
                LineOutcome::Failed(HexError::InvalidExtendedLinear)
            }
        } else if record_type == 0x03 || record_type == 0x05 {
            LineOutcome::Continue { base, memory }
        } else {
            LineOutcome::Failed(HexError::UnsupportedRecordType { record_type })
        }
    }
}

/// What a line does: nothing where it is blank, and what its record does otherwise.
pub open spec fn line_outcome(
    text: Seq<char>,
    line: usize,
    base: u32,
    memory: Map<u32, u8>,
) -> LineOutcome {
    let record = trim(text);
    if record.len() == 0 {
        LineOutcome::Continue { base, memory }
    } else if record[0] != ':' {
        LineOutcome::Failed(HexError::InvalidRecord { line })
    } else {
        match hex_bytes(record.skip(1)) {
            Err(cause) => LineOutcome::Failed(HexError::InvalidHex { line, cause }),
            Ok(raw) => record_outcome(raw, line, base, memory),
        }
    }
}

/// The memory after the lines of `text`, the first of which has the number `line`.
pub open spec fn lines_memory(
    text: Seq<char>,
    line: nat,
    base: u32,
    memory: Map<u32, u8>,
) -> Result<Map<u32, u8>, HexError>
    decreases text.len(),
{
    if text.len() == 0 {
        Ok(memory)
    } else {
        match line_outcome(
            text.take(line_length(text) as int),
            line as usize,
            base,
            memory,
        ) {
            LineOutcome::Continue { base: next_base, memory: next_memory } => lines_memory(
                after_line(text),
                line + 1,
                next_base,
                next_memory,
            ),
            LineOutcome::EndOfFile => Ok(memory),
            LineOutcome::Failed(error) => Err(error),
        }
    }
}

/// The memory that an Intel HEX file describes.
pub open spec fn hex_memory(text: Seq<char>) -> Result<Map<u32, u8>, HexError> {
    lines_memory(text, 1, 0, Map::empty())
}

/// The number of bytes of a character in UTF-8.
fn width(c: char) -> (width: usize)
    ensures
        width == utf8_width(c),
{
    let code: u32 = c as u32;
    if code < 0x80 {
        1
    } else if code < 0x800 {
        2
    } else if code < 0x1_0000 {
        3
    } else {
        4
    }
}

/// Whether a text has an odd number of bytes in UTF-8.
fn has_odd_length(text: &[char]) -> (odd: bool)
    ensures
        odd == (utf8_length(text@) % 2 != 0),
{
    let mut odd: bool = false;
    let mut index: usize = 0;
    while index < text.len()
        invariant
            index <= text@.len(),
            odd == (utf8_length(text@.take(index as int)) % 2 != 0),
        decreases text@.len() - index,
    {
        assert(text@.take(index + 1).drop_last() =~= text@.take(index as int));
        if width(text[index]) % 2 == 1 {
            odd = !odd;
        }
        index += 1;
    }
    assert(text@.take(index as int) =~= text@);
    odd
}

/// Decodes hexadecimal characters.
fn decode_characters(text: &[char]) -> (result: Result<Vec<u8>, DecodeError>)
    ensures
        match result {
            Ok(bytes) => hex_bytes(text@) == Ok::<Seq<u8>, DecodeError>(bytes@),
            Err(error) => hex_bytes(text@) == Err::<Seq<u8>, DecodeError>(error),
        },
{
    if has_odd_length(text) {
        return Err(DecodeError::OddLength);
    }
    let mut out: Vec<u8> = Vec::new();
    let mut index: usize = 0;
    let ghost all = pair_bytes(text@);
    proof {
        assert(text@.skip(0) =~= text@);
        if let Ok(rest) = all {
            assert(out@ + rest =~= rest);
        }
    }
    while index < text.len()
        invariant
            index <= text@.len(),
            hex_bytes(text@) == all,
            match pair_bytes(text@.skip(index as int)) {
                Ok(rest) => all == Ok::<Seq<u8>, DecodeError>(out@ + rest),
                Err(error) => all == Err::<Seq<u8>, DecodeError>(error),
            },
        decreases text@.len() - index,
    {
        let first: usize = width(text[index]);
        if first == 2 {
            return Err(DecodeError::InvalidDigit);
        }
        if first > 2 || text.len() - index == 1 || width(text[index + 1]) > 1 {
            return Err(DecodeError::SplitCharacter);
        }
        let ghost pair = text@.skip(index as int).take(2);
        proof {
            assert(pair =~= text@.subrange(index as int, index + 2));
            assert(text@.skip(index as int).skip(2) =~= text@.skip(index + 2));
            crate::text::lemma_number_limit(pair, 16, u8::MAX as nat);
        }
        match parse_number(
            vstd::slice::slice_subrange(text, index, index + 2),
            16,
            u8::MAX as u32,
        ) {
            Ok(value) => {
                proof {
                    if let Ok(rest) = pair_bytes(text@.skip(index + 2)) {
                        assert(out@ + (seq![value as u8] + rest) =~= out@.push(value as u8) + rest);
                    }
                }
                out.push(value as u8);
            },
            Err(_) => {
                return Err(DecodeError::InvalidDigit);
            },
        }
        index += 2;
    }
    proof {
        assert(text@.skip(index as int) =~= Seq::<char>::empty());
        assert(out@ + Seq::<u8>::empty() =~= out@);
    }
    Ok(out)
}

/// Decodes a text in hexadecimal.
pub fn decode_hex(text: &str) -> (result: Result<Vec<u8>, DecodeError>)
    ensures
        match result {
            Ok(bytes) => hex_bytes(text@) == Ok::<Seq<u8>, DecodeError>(bytes@),
            Err(error) => hex_bytes(text@) == Err::<Seq<u8>, DecodeError>(error),
        },
{
    let chars: Vec<char> = characters(text);
    decode_characters(chars.as_slice())
}

/// The sum of bytes, without the carries.
fn checksum(bytes: &[u8]) -> (sum: u8)
    ensures
        sum == byte_sum(bytes@) % 256,
{
    let mut sum: u8 = 0;
    let mut index: usize = 0;
    while index < bytes.len()
        invariant
            index <= bytes@.len(),
            sum == byte_sum(bytes@.take(index as int)) % 256,
        decreases bytes@.len() - index,
    {
        assert(bytes@.take(index + 1).drop_last() =~= bytes@.take(index as int));
        sum = sum.wrapping_add(bytes[index]);
        index += 1;
    }
    assert(bytes@.take(index as int) =~= bytes@);
    sum
}

/// Takes in the bytes of a record. The result says whether the file goes on.
fn read_record(
    raw: &[u8],
    line: usize,
    base: &mut u32,
    memory: &mut BTreeMap<u32, u8>,
) -> (result: Result<bool, HexError>)
    requires
        *old(base) <= MAXIMUM_BASE,
    ensures
        *final(base) <= MAXIMUM_BASE,
        match record_outcome(raw@, line, *old(base), old(memory)@) {
            LineOutcome::Continue { base: next_base, memory: next_memory } => result == Ok::<
                bool,
                HexError,
            >(true) && *final(base) == next_base && final(memory)@ == next_memory,
            LineOutcome::EndOfFile => result == Ok::<bool, HexError>(false) && final(memory)@
                == old(memory)@,
            LineOutcome::Failed(error) => result == Err::<bool, HexError>(error),
        },
{
    if raw.len() < 5 {
        return Err(HexError::RecordTooShort { line });
    }
    let length: usize = raw[0] as usize;
    if raw.len() != length + 5 {
        return Err(HexError::LengthMismatch { line });
    }
    if checksum(raw) != 0 {
        return Err(HexError::ChecksumFailed { line });
    }
    let offset: u32 = raw[1] as u32 * 0x100 + raw[2] as u32;
    let record_type: u8 = raw[3];
    let payload: &[u8] = vstd::slice::slice_subrange(raw, 4, 4 + length);
    match record_type {
        0x00 => {
            match insert_bytes(memory, *base + offset, payload) {
                Ok(()) => Ok(true),
                Err(error) => Err(HexError::Place(error)),
            }
        },
        0x01 => Ok(false),
        0x02 => {
            if length != 2 {
                return Err(HexError::InvalidExtendedSegment);
            }
            *base = (payload[0] as u32 * 0x100 + payload[1] as u32) * 0x10;
            Ok(true)
        },
        0x04 => {
            if length != 2 {
                return Err(HexError::InvalidExtendedLinear);
            }
            *base = (payload[0] as u32 * 0x100 + payload[1] as u32) * 0x1_0000;
            Ok(true)
        },
        0x03 | 0x05 => Ok(true),
        other => Err(HexError::UnsupportedRecordType { record_type: other }),
    }
}

/// Reads an Intel HEX file.
pub fn load_hex(text: &str) -> (result: Result<BTreeMap<u32, u8>, HexError>)
    ensures
        match result {
            Ok(memory) => hex_memory(text@) == Ok::<Map<u32, u8>, HexError>(memory@),
            Err(error) => hex_memory(text@) == Err::<Map<u32, u8>, HexError>(error),
        },
{
    let chars: Vec<char> = characters(text);
    let mut memory: BTreeMap<u32, u8> = BTreeMap::new();
    let mut base: u32 = 0;
    let mut line: usize = 0;
    let mut position: usize = 0;
    assert(chars@.skip(0) =~= chars@);
    while position < chars.len()
        invariant
            chars@ == text@,
            position <= chars@.len(),
            line <= position,
            base <= MAXIMUM_BASE,
            lines_memory(chars@.skip(position as int), (line + 1) as nat, base, memory@)
                == hex_memory(text@),
        decreases chars@.len() - position,
    {
        let end: usize = line_end(chars.as_slice(), position);
        let ghost rest = chars@.skip(position as int);
        proof {
            lemma_line_length(rest);
            assert(rest.take(end - position) =~= chars@.subrange(position as int, end as int));
            if end < chars@.len() {
                assert(after_line(rest) =~= chars@.skip(end + 1));
            } else {
                assert(after_line(rest) =~= chars@.skip(end as int));
            }
        }
        let (first, last) = trim_range(chars.as_slice(), position, end);
        let ghost record = trim(chars@.subrange(position as int, end as int));
        if first < last {
            if chars[first] != ':' {
                return Err(HexError::InvalidRecord { line: line + 1 });
            }
            assert(record.skip(1) =~= chars@.subrange(first + 1, last as int));
            match decode_characters(
                vstd::slice::slice_subrange(chars.as_slice(), first + 1, last),
            ) {
                Err(cause) => {
                    return Err(HexError::InvalidHex { line: line + 1, cause });
                },
                Ok(raw) => {
                    match read_record(raw.as_slice(), line + 1, &mut base, &mut memory) {
                        Err(error) => {
                            return Err(error);
                        },
                        Ok(more) => {
                            if !more {
                                return Ok(memory);
                            }
                        },
                    }
                },
            }
        }
        if end == chars.len() {
            position = end;
        } else {
            position = end + 1;
        }
        line += 1;
    }
    assert(chars@.skip(position as int) =~= Seq::<char>::empty());
    Ok(memory)
}

/// Bytes in hexadecimal, two digits for each.
pub open spec fn hex_text(bytes: Seq<u8>) -> Seq<char>
    decreases bytes.len(),
{
    if bytes.len() == 0 {
        Seq::empty()
    } else {
        hex_text(bytes.drop_last()) + hex_pair(bytes.last())
    }
}

/// A byte in hexadecimal.
pub open spec fn hex_pair(byte: u8) -> Seq<char> {
    seq![hex_digit((byte / 16) as nat), hex_digit((byte % 16) as nat)]
}

proof fn lemma_hex_pair(byte: u8)
    ensures
        number(hex_pair(byte), 16, u8::MAX as nat) == Ok::<nat, NumberError>(byte as nat),
        utf8_width(hex_pair(byte)[0]) == 1,
        utf8_width(hex_pair(byte)[1]) == 1,
{
    let pair = hex_pair(byte);
    let upper = (byte / 16) as nat;
    let lower = (byte % 16) as nat;
    assert(digit_value(hex_digit(upper), 16) == Some(upper));
    assert(digit_value(hex_digit(lower), 16) == Some(lower));
    assert(pair.drop_last() =~= seq![hex_digit(upper)]);
    assert(pair.drop_last().drop_last() =~= Seq::<char>::empty());
    reveal_with_fuel(digits_value, 3);
}

proof fn lemma_hex_text(bytes: Seq<u8>)
    ensures
        hex_text(bytes).len() == 2 * bytes.len(),
        utf8_length(hex_text(bytes)) == 2 * bytes.len(),
    decreases bytes.len(),
{
    if bytes.len() > 0 {
        let text = hex_text(bytes);
        let rest = hex_text(bytes.drop_last());
        lemma_hex_text(bytes.drop_last());
        lemma_hex_pair(bytes.last());
        assert(text.drop_last().drop_last() =~= rest);
        assert(text.last() == hex_pair(bytes.last())[1]);
        assert(text.drop_last().last() == hex_pair(bytes.last())[0]);
        reveal_with_fuel(utf8_length, 3);
    }
}

proof fn lemma_hex_text_from_the_front(bytes: Seq<u8>)
    requires
        bytes.len() > 0,
    ensures
        hex_text(bytes) == hex_pair(bytes[0]) + hex_text(bytes.skip(1)),
    decreases bytes.len(),
{
    if bytes.len() == 1 {
        assert(bytes.skip(1) =~= Seq::<u8>::empty());
        assert(bytes.drop_last() =~= Seq::<u8>::empty());
        assert(hex_text(bytes) =~= hex_pair(bytes[0]) + hex_text(bytes.skip(1)));
    } else {
        lemma_hex_text_from_the_front(bytes.drop_last());
        assert(bytes.drop_last().skip(1) =~= bytes.skip(1).drop_last());
        assert(hex_text(bytes) =~= hex_pair(bytes[0]) + hex_text(bytes.skip(1)));
    }
}

proof fn lemma_pair_bytes_of_hex_text(bytes: Seq<u8>)
    ensures
        pair_bytes(hex_text(bytes)) == Ok::<Seq<u8>, DecodeError>(bytes),
    decreases bytes.len(),
{
    if bytes.len() > 0 {
        let text = hex_text(bytes);
        lemma_hex_text_from_the_front(bytes);
        lemma_hex_pair(bytes[0]);
        lemma_hex_text(bytes);
        lemma_pair_bytes_of_hex_text(bytes.skip(1));
        assert(text.take(2) =~= hex_pair(bytes[0]));
        assert(text.skip(2) =~= hex_text(bytes.skip(1)));
        assert(seq![bytes[0]] + bytes.skip(1) =~= bytes);
    } else {
        assert(bytes =~= Seq::<u8>::empty());
    }
}

proof fn lemma_case_and_length(left: Seq<char>, right: Seq<char>)
    requires
        equal_ignoring_case(left, right),
    ensures
        utf8_length(left) == utf8_length(right),
    decreases left.len(),
{
    if left.len() > 0 {
        let last = left.len() - 1;
        assert(ascii_lower(left[last]) == ascii_lower(right[last]));
        lemma_case_of_a_character(left[last], right[last]);
        assert(equal_ignoring_case(left.drop_last(), right.drop_last()));
        lemma_case_and_length(left.drop_last(), right.drop_last());
    }
}

proof fn lemma_case_and_pairs(left: Seq<char>, right: Seq<char>)
    requires
        equal_ignoring_case(left, right),
    ensures
        pair_bytes(left) == pair_bytes(right),
    decreases left.len(),
{
    if left.len() > 0 {
        assert(ascii_lower(left[0]) == ascii_lower(right[0]));
        lemma_case_of_a_character(left[0], right[0]);
        if left.len() > 1 {
            assert(ascii_lower(left[1]) == ascii_lower(right[1]));
            lemma_case_of_a_character(left[1], right[1]);
            assert(equal_ignoring_case(left.take(2), right.take(2)));
            law_case_of_digits_is_ignored(left.take(2), right.take(2), 16, u8::MAX as nat);
            assert(equal_ignoring_case(left.skip(2), right.skip(2)));
            lemma_case_and_pairs(left.skip(2), right.skip(2));
        }
    }
}

/// The case of letters does not count in hexadecimal.
pub proof fn law_case_of_hexadecimal_is_ignored(left: Seq<char>, right: Seq<char>)
    requires
        equal_ignoring_case(left, right),
    ensures
        hex_bytes(left) == hex_bytes(right),
{
    lemma_case_and_length(left, right);
    lemma_case_and_pairs(left, right);
}

/// Bytes that are written in hexadecimal, with letters in whatever case, are read back.
pub proof fn law_decoding_gives_back_what_was_encoded(bytes: Seq<u8>, text: Seq<char>)
    requires
        equal_ignoring_case(text, hex_text(bytes)),
    ensures
        hex_bytes(text) == Ok::<Seq<u8>, DecodeError>(bytes),
{
    lemma_hex_text(bytes);
    lemma_pair_bytes_of_hex_text(bytes);
    law_case_of_hexadecimal_is_ignored(text, hex_text(bytes));
}

/// The case of letters does not count in a line.
pub proof fn law_case_of_a_line_is_ignored(
    left: Seq<char>,
    right: Seq<char>,
    line: usize,
    base: u32,
    memory: Map<u32, u8>,
)
    requires
        equal_ignoring_case(left, right),
    ensures
        line_outcome(left, line, base, memory) == line_outcome(right, line, base, memory),
{
    lemma_case_and_trim(left, right);
    let first = trim(left);
    let second = trim(right);
    if first.len() > 0 {
        assert(ascii_lower(first[0]) == ascii_lower(second[0]));
        lemma_case_of_a_character(first[0], second[0]);
        assert(equal_ignoring_case(first.skip(1), second.skip(1)));
        law_case_of_hexadecimal_is_ignored(first.skip(1), second.skip(1));
    }
}

/// A line that holds a record, in letters of whatever case and with white space around it, does
/// what the record does.
pub proof fn law_a_line_does_what_its_record_does(
    text: Seq<char>,
    raw: Seq<u8>,
    line: usize,
    base: u32,
    memory: Map<u32, u8>,
)
    requires
        equal_ignoring_case(trim(text), seq![':'] + hex_text(raw)),
    ensures
        line_outcome(text, line, base, memory) == record_outcome(raw, line, base, memory),
{
    let record = trim(text);
    let whole = seq![':'] + hex_text(raw);
    assert(whole[0] == ':');
    assert(ascii_lower(record[0]) == ascii_lower(whole[0]));
    lemma_case_of_a_character(record[0], ':');
    assert(equal_ignoring_case(record.skip(1), hex_text(raw))) by {
        assert forall|i: int| 0 <= i < hex_text(raw).len() implies ascii_lower(
            #[trigger] record.skip(1)[i],
        ) == ascii_lower(hex_text(raw)[i]) by {
            assert(record.skip(1)[i] == record[i + 1] && whole[i + 1] == hex_text(raw)[i]);
        }
    }
    law_decoding_gives_back_what_was_encoded(raw, record.skip(1));
}

/// Lines are read one behind the other. What stands behind the end-of-file record, or behind a
/// line that fails, does not count.
pub proof fn law_lines_are_read_in_order(
    first: Seq<char>,
    rest: Seq<char>,
    line: nat,
    base: u32,
    memory: Map<u32, u8>,
)
    requires
        !first.contains('\n'),
    ensures
        lines_memory(first + seq!['\n'] + rest, line, base, memory) == (match line_outcome(
            first,
            line as usize,
            base,
            memory,
        ) {
            LineOutcome::Continue { base: next_base, memory: next_memory } => lines_memory(
                rest,
                line + 1,
                next_base,
                next_memory,
            ),
            LineOutcome::EndOfFile => Ok(memory),
            LineOutcome::Failed(error) => Err(error),
        }),
{
    let text = first + seq!['\n'] + rest;
    lemma_line_length(text);
    assert(text[first.len() as int] == '\n');
    let length = line_length(text) as int;
    assert(length == first.len()) by {
        if length < first.len() {
            assert(first[length] == text[length]);
            assert(first.contains('\n'));
        }
    }
    assert(text.take(length) =~= first);
    assert(text.skip(length + 1) =~= rest);
}

proof fn lemma_byte_sum_update(bytes: Seq<u8>, position: int, value: u8)
    requires
        0 <= position < bytes.len(),
    ensures
        byte_sum(bytes.update(position, value)) == byte_sum(bytes) - bytes[position] + value,
    decreases bytes.len(),
{
    let changed = bytes.update(position, value);
    if position == bytes.len() - 1 {
        assert(changed.drop_last() =~= bytes.drop_last());
    } else {
        assert(changed.drop_last() =~= bytes.drop_last().update(position, value));
        lemma_byte_sum_update(bytes.drop_last(), position, value);
    }
}

/// A record in which one byte has changed is rejected.
pub proof fn law_a_changed_byte_is_noticed(
    raw: Seq<u8>,
    position: int,
    value: u8,
    line: usize,
    base: u32,
    memory: Map<u32, u8>,
)
    requires
        5 <= raw.len(),
        raw.len() == raw[0] + 5,
        byte_sum(raw) % 256 == 0,
        0 <= position < raw.len(),
        raw[position] != value,
    ensures
        record_outcome(raw.update(position, value), line, base, memory) == LineOutcome::Failed(
            if position == 0 {
                HexError::LengthMismatch { line }
            } else {
                HexError::ChecksumFailed { line }
            },
        ),
{
    lemma_byte_sum_update(raw, position, value);
}

/// Reading on never changes or drops a byte that is already there.
pub proof fn law_memory_only_grows(text: Seq<char>, line: nat, base: u32, memory: Map<u32, u8>)
    ensures
        lines_memory(text, line, base, memory) matches Ok(result) ==> memory.submap_of(result),
    decreases text.len(),
{
    if text.len() > 0 {
        let first = text.take(line_length(text) as int);
        lemma_line_length(text);
        if let LineOutcome::Continue { base: next_base, memory: next_memory } = line_outcome(
            first,
            line as usize,
            base,
            memory,
        ) {
            lemma_line_grows(first, line as usize, base, memory);
            law_memory_only_grows(after_line(text), line + 1, next_base, next_memory);
            if let Ok(result) = lines_memory(text, line, base, memory) {
                assert forall|key: u32| #[trigger]
                    memory.dom().contains(key) implies result.dom().contains(key) && result[key]
                    == memory[key] by {
                    assert(next_memory.dom().contains(key));
                }
            }
        }
    }
}

proof fn lemma_line_grows(text: Seq<char>, line: usize, base: u32, memory: Map<u32, u8>)
    ensures
        line_outcome(text, line, base, memory) matches LineOutcome::Continue { memory: next, .. }
            ==> memory.submap_of(next),
{
    let record = trim(text);
    if record.len() > 0 && hex_bytes(record.skip(1)) is Ok {
        let raw = hex_bytes(record.skip(1))->Ok_0;
        let payload = raw.subrange(4, 4 + raw[0]);
        law_place_overlays(memory, base + big_endian_16(raw, 1), payload);
    }
}

} // verus!
