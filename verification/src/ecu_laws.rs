//! What the definition of an ECU says: its identifiers and its boot request.

use crate::text::{number, NumberError};
use crate::text_laws::{
    are_words, denotes, is_blank, is_digit, is_digit_below, is_numeral, is_space,
    law_numbers_are_read_as_their_numerals, law_trimming_takes_off_white_space,
    law_words_are_parted_by_white_space, spells, spread, worth,
};
use crate::types::{boot_payload, identifier, without_hex_prefixes, word_bytes, PayloadError};
use vstd::prelude::*;

verus! {

/// Whether a text is the numeral of an identifier: hexadecimal behind `0x` or `0X`, decimal
/// otherwise.
pub open spec fn names(text: Seq<char>, value: int) -> bool {
    if text.len() >= 2 && text[0] == '0' && (text[1] == 'x' || text[1] == 'X') {
        denotes(text.skip(2), 16, value)
    } else {
        denotes(text, 10, value)
    }
}

/// A text is read as an identifier exactly where it is the numeral of it, with white space around
/// it or not. The numeral of a number of more than 32 bits is too large.
pub proof fn law_identifiers_are_their_numerals(
    left: Seq<char>,
    body: Seq<char>,
    right: Seq<char>,
    value: nat,
)
    requires
        is_blank(left),
        is_blank(right),
        body.len() > 0 ==> !is_space(body[0]) && !is_space(body.last()),
    ensures
        value <= u32::MAX ==> (identifier(left + body + right) == Ok::<u32, NumberError>(
            value as u32,
        ) <==> names(body, value as int)),
        value > u32::MAX && names(body, value as int) ==> identifier(left + body + right) == Err::<
            u32,
            NumberError,
        >(NumberError::TooLarge),
{
    law_trimming_takes_off_white_space(left, body, right);
    law_numbers_are_read_as_their_numerals(body, 10, u32::MAX as nat, value);
    if body.len() >= 2 {
        law_numbers_are_read_as_their_numerals(body.skip(2), 16, u32::MAX as nat, value);
    }
    // The number that is read, whatever it is, is the one that the text denotes.
    if let Ok(read) = number(body, 10, u32::MAX as nat) {
        law_numbers_are_read_as_their_numerals(body, 10, u32::MAX as nat, read);
    }
    if body.len() >= 2 {
        if let Ok(read) = number(body.skip(2), 16, u32::MAX as nat) {
            law_numbers_are_read_as_their_numerals(body.skip(2), 16, u32::MAX as nat, read);
        }
    }
}

/// Whether a text starts with `0x`, so many times.
pub open spec fn starts_with_prefixes(text: Seq<char>, count: nat) -> bool
    decreases count,
{
    count == 0 || (text.len() >= 2 && text[0] == '0' && text[1] == 'x' && starts_with_prefixes(
        text.skip(2),
        (count - 1) as nat,
    ))
}

/// Whether a word is a hexadecimal numeral of a byte behind `0x`, so many times.
pub open spec fn is_byte_behind(word: Seq<char>, count: nat, byte: int) -> bool {
    starts_with_prefixes(word, count) && denotes(word.skip(2 * count as int), 16, byte)
}

/// Whether a word is a hexadecimal numeral of a byte, behind `0x` or not.
pub open spec fn is_byte_word(word: Seq<char>, byte: u8) -> bool {
    exists|count: nat| #[trigger] is_byte_behind(word, count, byte as int)
}

proof fn lemma_prefixes_off(word: Seq<char>, count: nat)
    requires
        starts_with_prefixes(word, count),
        ({
            let rest = word.skip(2 * count as int);
            !(rest.len() >= 2 && rest[0] == '0' && rest[1] == 'x')
        }),
    ensures
        without_hex_prefixes(word) == word.skip(2 * count as int),
    decreases count,
{
    if count == 0 {
        assert(word.skip(0) =~= word);
    } else {
        lemma_prefix_length(word.skip(2), (count - 1) as nat);
        assert(word.skip(2).skip(2 * (count - 1)) =~= word.skip(2 * count as int));
        lemma_prefixes_off(word.skip(2), (count - 1) as nat);
    }
}

proof fn lemma_prefix_length(word: Seq<char>, count: nat)
    requires
        starts_with_prefixes(word, count),
    ensures
        2 * count <= word.len(),
    decreases count,
{
    if count > 0 {
        lemma_prefix_length(word.skip(2), (count - 1) as nat);
    }
}

proof fn lemma_prefixes(word: Seq<char>) -> (count: nat)
    ensures
        starts_with_prefixes(word, count),
        without_hex_prefixes(word) == word.skip(2 * count as int),
    decreases word.len(),
{
    if word.len() >= 2 && word[0] == '0' && word[1] == 'x' {
        let before = lemma_prefixes(word.skip(2));
        let count = before + 1;
        lemma_prefix_length(word.skip(2), before);
        assert(word.skip(2).skip(2 * before as int) =~= word.skip(2 * count as int));
        count
    } else {
        assert(word.skip(0) =~= word);
        0
    }
}

/// A word is read as a byte exactly where it is a numeral of it.
proof fn lemma_byte_word(word: Seq<char>, byte: u8)
    ensures
        number(without_hex_prefixes(word), 16, u8::MAX as nat) == Ok::<nat, NumberError>(
            byte as nat,
        ) <==> is_byte_word(word, byte),
{
    if is_byte_word(word, byte) {
        let count = choose|count: nat| #[trigger] is_byte_behind(word, count, byte as int);
        let rest = word.skip(2 * count as int);
        lemma_numeral_has_no_prefix(rest, byte as int);
        lemma_prefixes_off(word, count);
        law_numbers_are_read_as_their_numerals(rest, 16, u8::MAX as nat, byte as nat);
    }
    if number(without_hex_prefixes(word), 16, u8::MAX as nat) == Ok::<nat, NumberError>(
        byte as nat,
    ) {
        let count = lemma_prefixes(word);
        law_numbers_are_read_as_their_numerals(
            word.skip(2 * count as int),
            16,
            u8::MAX as nat,
            byte as nat,
        );
        assert(is_byte_behind(word, count, byte as int));
    }
}

proof fn lemma_numeral_has_no_prefix(text: Seq<char>, value: int)
    requires
        denotes(text, 16, value),
    ensures
        !(text.len() >= 2 && text[0] == '0' && text[1] == 'x'),
{
    let values = choose|values: Seq<int>| #[trigger]
        is_numeral(text, values, 16) && worth(values, 16) == value;
    if text.len() >= 2 && text[0] == '0' && text[1] == 'x' {
        assert('0' as int == 0x30 && '+' as int == 0x2B && 'x' as int == 0x78);
        assert(is_digit_below(text[1], values[1], 16));
    }
}

proof fn lemma_words_as_bytes(parts: Seq<Seq<char>>, bytes: Seq<u8>)
    requires
        bytes.len() == parts.len(),
        forall|i: int| 0 <= i < parts.len() ==> is_byte_word(#[trigger] parts[i], bytes[i]),
    ensures
        word_bytes(parts) == Ok::<Seq<u8>, NumberError>(bytes),
    decreases parts.len(),
{
    if parts.len() == 0 {
        assert(bytes =~= Seq::<u8>::empty());
    } else {
        assert(is_byte_word(parts[0], bytes[0]));
        lemma_byte_word(parts[0], bytes[0]);
        assert forall|i: int| 0 <= i < parts.skip(1).len() implies is_byte_word(
            #[trigger] parts.skip(1)[i],
            bytes.skip(1)[i],
        ) by {
            assert(parts.skip(1)[i] == parts[i + 1] && bytes.skip(1)[i] == bytes[i + 1]);
        }
        lemma_words_as_bytes(parts.skip(1), bytes.skip(1));
        assert(seq![bytes[0]] + bytes.skip(1) =~= bytes);
    }
}

proof fn lemma_bytes_of_words(parts: Seq<Seq<char>>, index: int)
    requires
        word_bytes(parts) is Ok,
        0 <= index < parts.len(),
    ensures
        exists|byte: u8| is_byte_word(parts[index], byte),
    decreases parts.len(),
{
    let value = number(without_hex_prefixes(parts[0]), 16, u8::MAX as nat)->Ok_0;
    if index == 0 {
        law_numbers_are_read_as_their_numerals(
            without_hex_prefixes(parts[0]),
            16,
            u8::MAX as nat,
            value,
        );
        lemma_byte_word(parts[0], value as u8);
    } else {
        lemma_bytes_of_words(parts.skip(1), index - 1);
        assert(parts.skip(1)[index - 1] == parts[index]);
    }
}

/// A boot request is the bytes that its words are numerals of, in their order, where these are one
/// to eight.
pub proof fn law_a_boot_request_is_the_bytes_of_its_words(
    parts: Seq<Seq<char>>,
    gaps: Seq<Seq<char>>,
    bytes: Seq<u8>,
)
    requires
        are_words(parts, gaps),
        bytes.len() == parts.len(),
        forall|i: int| 0 <= i < parts.len() ==> is_byte_word(#[trigger] parts[i], bytes[i]),
    ensures
        boot_payload(spread(parts, gaps)) == (if 1 <= bytes.len() <= 8 {
            Ok(bytes)
        } else {
            Err(PayloadError::Length)
        }),
{
    law_words_are_parted_by_white_space(parts, gaps);
    lemma_words_as_bytes(parts, bytes);
}

/// A word that is no numeral of a byte makes a boot request an error.
pub proof fn law_a_boot_request_is_bytes_alone(
    parts: Seq<Seq<char>>,
    gaps: Seq<Seq<char>>,
    index: int,
)
    requires
        are_words(parts, gaps),
        0 <= index < parts.len(),
        forall|byte: u8| !is_byte_word(parts[index], byte),
    ensures
        boot_payload(spread(parts, gaps)) matches Err(PayloadError::Number(_)),
{
    law_words_are_parted_by_white_space(parts, gaps);
    if word_bytes(parts) is Ok {
        lemma_bytes_of_words(parts, index);
    }
}

/// Whether a text is the two hexadecimal digits of a byte, in whatever case.
pub open spec fn is_pair(text: Seq<char>, byte: u8) -> bool {
    text.len() == 2 && is_digit(text[0], byte as int / 16) && is_digit(text[1], byte as int % 16)
}

/// One to eight bytes are read back from their pairs of hexadecimal digits, in whatever case, each
/// behind `0x` or not, with white space between them.
pub proof fn law_a_boot_request_is_read_back(
    bytes: Seq<u8>,
    parts: Seq<Seq<char>>,
    gaps: Seq<Seq<char>>,
)
    requires
        are_words(parts, gaps),
        1 <= bytes.len() <= 8,
        bytes.len() == parts.len(),
        forall|i: int|
            0 <= i < parts.len() ==> is_pair(#[trigger] parts[i], bytes[i]) || (parts[i].len() == 4
                && parts[i][0] == '0' && parts[i][1] == 'x' && is_pair(
                parts[i].skip(2),
                bytes[i],
            )),
    ensures
        boot_payload(spread(parts, gaps)) == Ok::<Seq<u8>, PayloadError>(bytes),
{
    assert forall|i: int| 0 <= i < parts.len() implies is_byte_word(
        #[trigger] parts[i],
        bytes[i],
    ) by {
        let word = parts[i];
        if is_pair(word, bytes[i]) {
            lemma_pair(word, bytes[i]);
            assert(word.skip(0) =~= word);
            assert(is_byte_behind(word, 0, bytes[i] as int));
        } else {
            lemma_pair(word.skip(2), bytes[i]);
            reveal_with_fuel(starts_with_prefixes, 2);
            assert(is_byte_behind(word, 1, bytes[i] as int));
        }
    }
    law_a_boot_request_is_the_bytes_of_its_words(parts, gaps, bytes);
}

proof fn lemma_pair(text: Seq<char>, byte: u8)
    requires
        is_pair(text, byte),
    ensures
        denotes(text, 16, byte as int),
{
    let values = seq![byte as int / 16, byte as int % 16];
    assert(spells(text, values, 16));
    assert(values.drop_last() =~= seq![byte as int / 16]);
    assert(values.drop_last().drop_last() =~= Seq::<int>::empty());
    reveal_with_fuel(worth, 3);
    assert(is_numeral(text, values, 16));
}

/// A text that is no identifier is refused for what its numeral is refused for, hexadecimal behind
/// `0x` or `0X`, decimal otherwise.
pub proof fn law_identifiers_are_refused_as_their_numerals(
    left: Seq<char>,
    body: Seq<char>,
    right: Seq<char>,
    error: NumberError,
)
    requires
        is_blank(left),
        is_blank(right),
        body.len() > 0 ==> !is_space(body[0]) && !is_space(body.last()),
    ensures
        identifier(left + body + right) == Err::<u32, NumberError>(error) <==> (if body.len() >= 2
            && body[0] == '0' && (body[1] == 'x' || body[1] == 'X') {
            number(body.skip(2), 16, 0xFFFF_FFFF)
        } else {
            number(body, 10, 0xFFFF_FFFF)
        }) == Err::<nat, NumberError>(error),
{
    law_trimming_takes_off_white_space(left, body, right);
}

/// Whether a word is a hexadecimal numeral of some byte, behind `0x` or not.
pub open spec fn is_some_byte(word: Seq<char>) -> bool {
    exists|byte: u8| is_byte_word(word, byte)
}

proof fn lemma_first_wrong_word(parts: Seq<Seq<char>>, index: int, error: NumberError)
    requires
        0 <= index < parts.len(),
        forall|i: int| 0 <= i < index ==> is_some_byte(#[trigger] parts[i]),
        number(without_hex_prefixes(parts[index]), 16, u8::MAX as nat) == Err::<nat, NumberError>(
            error,
        ),
    ensures
        word_bytes(parts) == Err::<Seq<u8>, NumberError>(error),
    decreases index,
{
    if index > 0 {
        let rest = parts.skip(1);
        assert(is_some_byte(parts[0]));
        let byte = choose|byte: u8| is_byte_word(parts[0], byte);
        lemma_byte_word(parts[0], byte);
        assert forall|i: int| 0 <= i < index - 1 implies is_some_byte(#[trigger] rest[i]) by {
            assert(rest[i] == parts[i + 1]);
        }
        assert(rest[index - 1] == parts[index]);
        lemma_first_wrong_word(rest, index - 1, error);
    }
}

/// The first word of a boot request that is no numeral of a byte decides the error: it is that of
/// what stands behind every `0x` at the start of the word.
pub proof fn law_the_first_wrong_word_decides(
    parts: Seq<Seq<char>>,
    gaps: Seq<Seq<char>>,
    index: int,
    count: nat,
    error: NumberError,
)
    requires
        are_words(parts, gaps),
        0 <= index < parts.len(),
        forall|i: int| 0 <= i < index ==> is_some_byte(#[trigger] parts[i]),
        starts_with_prefixes(parts[index], count),
        !starts_with_prefixes(parts[index].skip(2 * count as int), 1),
        number(parts[index].skip(2 * count as int), 16, 255) == Err::<nat, NumberError>(error),
    ensures
        boot_payload(spread(parts, gaps)) == Err::<Seq<u8>, PayloadError>(
            PayloadError::Number(error),
        ),
{
    reveal_with_fuel(starts_with_prefixes, 2);
    lemma_prefixes_off(parts[index], count);
    law_words_are_parted_by_white_space(parts, gaps);
    lemma_first_wrong_word(parts, index, error);
}

} // verus!
