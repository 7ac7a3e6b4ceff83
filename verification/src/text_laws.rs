//! What numerals, white space and words are, character by character.

use crate::text::{
    ascii_lower, digit_value, digits_value, equal_ignoring_case, is_white_space,
    law_trim_ignores_white_space_at_the_ends, lemma_trim_keeps, lemma_trim_start_length,
    lemma_word_length, number, trim, trim_start, word_length, words, NumberError,
};
use vstd::prelude::*;

verus! {

/// Whether a character is white space, by its code.
pub open spec fn is_space(c: char) -> bool {
    let code = c as int;
    ||| code == 0x20 || code == 0x09 || code == 0x0A || code == 0x0B || code == 0x0C || code == 0x0D
    ||| code == 0x85 || code == 0xA0 || code == 0x1680
    ||| 0x2000 <= code <= 0x200A
    ||| code == 0x2028 || code == 0x2029 || code == 0x202F || code == 0x205F || code == 0x3000
}

/// Whether a text is white space alone.
pub open spec fn is_blank(text: Seq<char>) -> bool {
    forall|i: int| 0 <= i < text.len() ==> is_space(#[trigger] text[i])
}

/// Whether a character is the digit of a value: a figure, or a letter of either case from ten on.
pub open spec fn is_digit(c: char, value: int) -> bool {
    let code = c as int;
    ||| 0 <= value <= 9 && code == 0x30 + value
    ||| 10 <= value <= 15 && code == 0x41 + (value - 10)
    ||| 10 <= value <= 15 && code == 0x61 + (value - 10)
}

/// What digits are worth: each as much as the radix times one to its right.
pub open spec fn worth(values: Seq<int>, radix: int) -> int
    decreases values.len(),
{
    if values.len() == 0 {
        0
    } else {
        worth(values.drop_last(), radix) * radix + values.last()
    }
}

/// Whether a character is the digit of a value that is below a radix.
pub open spec fn is_digit_below(c: char, value: int, radix: int) -> bool {
    0 <= value && value < radix && is_digit(c, value)
}

/// Whether a text is made of the digits of these values, one for each.
pub open spec fn spells(text: Seq<char>, values: Seq<int>, radix: int) -> bool {
    &&& text.len() == values.len()
    &&& forall|i: int|
        0 <= i < text.len() ==> is_digit_below(#[trigger] text[i], values[i], radix)
}

/// Whether a text is a numeral with digits of these values, behind a plus sign or not.
pub open spec fn is_numeral(text: Seq<char>, values: Seq<int>, radix: int) -> bool {
    &&& values.len() > 0
    &&& spells(text, values, radix) || (text.len() > 0 && text[0] == '+' && spells(
        text.skip(1),
        values,
        radix,
    ))
}

/// Whether a text is a numeral of a number.
pub open spec fn denotes(text: Seq<char>, radix: int, value: int) -> bool {
    exists|values: Seq<int>| #[trigger]
        is_numeral(text, values, radix) && worth(values, radix) == value
}

/// White space is what its code says.
pub proof fn law_white_space_is_known_by_its_code(c: char)
    ensures
        is_white_space(c) <==> is_space(c),
{
}

/// Whether two characters are the same, or an ASCII capital and the letter 32 codes above it.
pub open spec fn is_same_letter(left: char, right: char) -> bool {
    let a = left as int;
    let b = right as int;
    ||| a == b
    ||| 0x41 <= a <= 0x5A && b == a + 32
    ||| 0x41 <= b <= 0x5A && a == b + 32
}

/// Whether two texts are the same, letter by letter, but for the case of ASCII letters.
pub open spec fn are_same_letters(left: Seq<char>, right: Seq<char>) -> bool {
    &&& left.len() == right.len()
    &&& forall|i: int| 0 <= i < left.len() ==> is_same_letter(#[trigger] left[i], right[i])
}

/// Two texts are equal but for case exactly when they differ, place by place, in nothing but
/// pairs of an ASCII capital and the letter 32 codes above it.
pub proof fn law_case_is_thirty_two_codes(left: Seq<char>, right: Seq<char>)
    ensures
        equal_ignoring_case(left, right) <==> are_same_letters(left, right),
{
    assert forall|i: int| 0 <= i < left.len() && left.len() == right.len() implies (ascii_lower(
        #[trigger] left[i],
    ) == ascii_lower(right[i]) <==> is_same_letter(left[i], right[i])) by {
        lemma_case_of_two(left[i], right[i]);
    }
}

proof fn lemma_case_of_two(left: char, right: char)
    ensures
        ascii_lower(left) == ascii_lower(right) <==> is_same_letter(left, right),
{
    assert('A' as int == 0x41 && 'Z' as int == 0x5A);
}

proof fn lemma_digit(c: char, radix: nat, value: int)
    requires
        radix <= 16,
    ensures
        is_digit(c, value) && value < radix <==> digit_value(c, radix) == Some(value as nat)
            && value >= 0,
{
}

proof fn lemma_worth(values: Seq<int>, radix: int)
    requires
        1 <= radix,
        forall|i: int| 0 <= i < values.len() ==> 0 <= #[trigger] values[i],
    ensures
        0 <= worth(values, radix),
        values.len() > 0 ==> worth(values.drop_last(), radix) <= worth(values, radix),
    decreases values.len(),
{
    if values.len() > 0 {
        let rest = values.drop_last();
        lemma_worth(rest, radix);
        let before = worth(rest, radix);
        assert(before * radix >= before) by (nonlinear_arith)
            requires
                before >= 0,
                radix >= 1,
        ;
    }
}

proof fn lemma_digits(text: Seq<char>, values: Seq<int>, radix: nat, limit: nat)
    requires
        2 <= radix <= 16,
        spells(text, values, radix as int),
    ensures
        digits_value(text, radix, limit) == (if worth(values, radix as int) <= limit {
            Ok(worth(values, radix as int) as nat)
        } else {
            Err(NumberError::TooLarge)
        }),
        0 <= worth(values, radix as int),
    decreases text.len(),
{
    assert forall|i: int| 0 <= i < values.len() implies 0 <= #[trigger] values[i] by {
        assert(is_digit_below(text[i], values[i], radix as int));
    }
    lemma_worth(values, radix as int);
    if text.len() > 0 {
        let last = text.len() - 1;
        assert(is_digit_below(text[last], values[last], radix as int));
        lemma_digit(text[last], radix, values[last]);
        assert(spells(text.drop_last(), values.drop_last(), radix as int)) by {
            let shorter = text.drop_last();
            let fewer = values.drop_last();
            assert forall|i: int| 0 <= i < shorter.len() implies is_digit_below(
                #[trigger] shorter[i],
                fewer[i],
                radix as int,
            ) by {
                assert(is_digit_below(text[i], values[i], radix as int));
            }
        }
        lemma_digits(text.drop_last(), values.drop_last(), radix, limit);
    }
}

proof fn lemma_digits_back(text: Seq<char>, radix: nat, limit: nat) -> (values: Seq<int>)
    requires
        2 <= radix <= 16,
        digits_value(text, radix, limit) is Ok,
    ensures
        spells(text, values, radix as int),
    decreases text.len(),
{
    if text.len() == 0 {
        Seq::empty()
    } else {
        let before = lemma_digits_back(text.drop_last(), radix, limit);
        let last = text.len() - 1;
        let digit = digit_value(text[last], radix)->0 as int;
        lemma_digit(text[last], radix, digit);
        let values = before.push(digit);
        assert forall|i: int| 0 <= i < text.len() implies is_digit_below(
            #[trigger] text[i],
            values[i],
            radix as int,
        ) by {
            if i < last {
                assert(is_digit_below(text.drop_last()[i], before[i], radix as int));
            } else {
                assert(values[i] == digit);
            }
        }
        values
    }
}

/// A text is read as a number exactly where it is a numeral of it, in digits and nothing else but
/// a plus sign. A numeral of a number above the limit is too large, and nothing but no text at all
/// is empty.
pub proof fn law_numbers_are_read_as_their_numerals(
    text: Seq<char>,
    radix: nat,
    limit: nat,
    value: nat,
)
    requires
        2 <= radix <= 16,
    ensures
        number(text, radix, limit) == Ok::<nat, NumberError>(value) <==> denotes(
            text,
            radix as int,
            value as int,
        ) && value <= limit,
        denotes(text, radix as int, value as int) && value > limit ==> number(text, radix, limit)
            == Err::<nat, NumberError>(NumberError::TooLarge),
        number(text, radix, limit) == Err::<nat, NumberError>(NumberError::Empty) <==> text.len()
            == 0,
{
    if denotes(text, radix as int, value as int) {
        let values = choose|values: Seq<int>| #[trigger]
            is_numeral(text, values, radix as int) && worth(values, radix as int) == value;
        lemma_numeral(text, values, radix, limit);
    }
    if number(text, radix, limit) == Ok::<nat, NumberError>(value) {
        let body = if text.len() > 1 && text[0] == '+' {
            text.skip(1)
        } else {
            text
        };
        let values = lemma_digits_back(body, radix, limit);
        lemma_digits(body, values, radix, limit);
        assert(is_numeral(text, values, radix as int));
    }
    lemma_not_empty(text, radix, limit);
    if text.len() > 1 {
        lemma_not_empty(text.skip(1), radix, limit);
    }
}

proof fn lemma_not_empty(text: Seq<char>, radix: nat, limit: nat)
    ensures
        digits_value(text, radix, limit) != Err::<nat, NumberError>(NumberError::Empty),
    decreases text.len(),
{
    if text.len() > 0 {
        lemma_not_empty(text.drop_last(), radix, limit);
    }
}

proof fn lemma_numeral(text: Seq<char>, values: Seq<int>, radix: nat, limit: nat)
    requires
        2 <= radix <= 16,
        is_numeral(text, values, radix as int),
    ensures
        number(text, radix, limit) == (if worth(values, radix as int) <= limit {
            Ok(worth(values, radix as int) as nat)
        } else {
            Err(NumberError::TooLarge)
        }),
        0 <= worth(values, radix as int),
{
    if spells(text, values, radix as int) {
        lemma_digits(text, values, radix, limit);
        assert(is_digit_below(text[0], values[0], radix as int));
        assert('+' as int == 0x2B);
    } else {
        lemma_digits(text.skip(1), values, radix, limit);
    }
}

/// What is left of a text when the white space around it is taken off.
pub proof fn law_trimming_takes_off_white_space(
    left: Seq<char>,
    body: Seq<char>,
    right: Seq<char>,
)
    requires
        is_blank(left),
        is_blank(right),
        body.len() > 0 ==> !is_space(body[0]) && !is_space(body.last()),
    ensures
        trim(left + body + right) == body,
    decreases left.len() + right.len(),
{
    let text = left + body + right;
    if left.len() > 0 {
        let rest = left.skip(1);
        assert(is_blank(rest)) by {
            assert forall|i: int| 0 <= i < rest.len() implies is_space(#[trigger] rest[i]) by {
                assert(rest[i] == left[i + 1]);
            }
        }
        law_trimming_takes_off_white_space(rest, body, right);
        assert(is_space(left[0]));
        law_trim_ignores_white_space_at_the_ends(rest + body + right, left[0]);
        assert(text =~= seq![left[0]] + (rest + body + right));
    } else if right.len() > 0 {
        let rest = right.drop_last();
        assert(is_blank(rest)) by {
            assert forall|i: int| 0 <= i < rest.len() implies is_space(#[trigger] rest[i]) by {
                assert(rest[i] == right[i]);
            }
        }
        law_trimming_takes_off_white_space(left, body, rest);
        assert(is_space(right[right.len() - 1]));
        law_trim_ignores_white_space_at_the_ends(left + body + rest, right.last());
        assert(text =~= (left + body + rest).push(right.last()));
    } else {
        assert(text =~= body);
        if body.len() > 0 {
            law_white_space_is_known_by_its_code(body[0]);
            law_white_space_is_known_by_its_code(body.last());
        }
        lemma_trim_keeps(body);
    }
}

/// Words with white space before, between and behind them. `gaps` holds one more than `parts`.
pub open spec fn spread(parts: Seq<Seq<char>>, gaps: Seq<Seq<char>>) -> Seq<char>
    decreases parts.len(),
{
    if parts.len() == 0 {
        gaps[0]
    } else {
        gaps[0] + parts[0] + spread(parts.skip(1), gaps.skip(1))
    }
}

/// Whether texts are words, and others the white space around them: words are not empty and hold
/// no white space, and between two words there is some.
pub open spec fn are_words(parts: Seq<Seq<char>>, gaps: Seq<Seq<char>>) -> bool {
    &&& gaps.len() == parts.len() + 1
    &&& forall|i: int| 0 <= i < gaps.len() ==> is_blank(#[trigger] gaps[i])
    &&& forall|i: int| 0 < i < parts.len() ==> (#[trigger] gaps[i]).len() > 0
    &&& forall|i: int| 0 <= i < parts.len() ==> (#[trigger] parts[i]).len() > 0 && forall|j: int|
        0 <= j < parts[i].len() ==> !is_space(#[trigger] parts[i][j])
}

proof fn lemma_trim_blank(blank: Seq<char>, rest: Seq<char>)
    requires
        is_blank(blank),
        rest.len() > 0 ==> !is_space(rest[0]),
    ensures
        trim_start(blank + rest) == rest,
    decreases blank.len(),
{
    let text = blank + rest;
    if text.len() > 0 {
        law_white_space_is_known_by_its_code(text[0]);
    }
    if blank.len() > 0 {
        assert(is_space(blank[0]));
        assert(text.skip(1) =~= blank.skip(1) + rest);
        assert forall|i: int| 0 <= i < blank.skip(1).len() implies is_space(
            #[trigger] blank.skip(1)[i],
        ) by {
            assert(blank.skip(1)[i] == blank[i + 1]);
        }
        lemma_trim_blank(blank.skip(1), rest);
    } else {
        assert(text =~= rest);
    }
}

proof fn lemma_first_word(word: Seq<char>, rest: Seq<char>)
    requires
        forall|j: int| 0 <= j < word.len() ==> !is_space(#[trigger] word[j]),
        rest.len() > 0 ==> is_space(rest[0]),
    ensures
        word_length(word + rest) == word.len(),
{
    let text = word + rest;
    lemma_word_length(text);
    let length = word_length(text) as int;
    if length < word.len() {
        assert(text[length] == word[length]);
        law_white_space_is_known_by_its_code(word[length]);
    } else if length > word.len() {
        assert(text[word.len() as int] == rest[0]);
        law_white_space_is_known_by_its_code(rest[0]);
    }
}

/// The words of a text are those that white space parts.
pub proof fn law_words_are_parted_by_white_space(parts: Seq<Seq<char>>, gaps: Seq<Seq<char>>)
    requires
        are_words(parts, gaps),
    ensures
        words(spread(parts, gaps)) == parts,
    decreases parts.len(),
{
    let text = spread(parts, gaps);
    assert(is_blank(gaps[0]));
    if parts.len() == 0 {
        lemma_trim_blank(text, Seq::empty());
        assert(text + Seq::<char>::empty() =~= text);
        assert(words(text) =~= parts);
    } else {
        let more = parts.skip(1);
        let gaps_left = gaps.skip(1);
        let rest = spread(more, gaps_left);
        assert(parts[0].len() > 0 && !is_space(parts[0][0]));
        assert(are_words(more, gaps_left)) by {
            assert forall|i: int| 0 <= i < gaps_left.len() implies is_blank(
                #[trigger] gaps_left[i],
            ) by {
                assert(gaps_left[i] == gaps[i + 1]);
            }
            assert forall|i: int| 0 < i < more.len() implies (#[trigger] gaps_left[i]).len()
                > 0 by {
                assert(gaps_left[i] == gaps[i + 1]);
            }
            assert forall|i: int| 0 <= i < more.len() implies (#[trigger] more[i]).len() > 0
                && forall|j: int| 0 <= j < more[i].len() ==> !is_space(#[trigger] more[i][j]) by {
                assert(more[i] == parts[i + 1]);
            }
        }
        law_words_are_parted_by_white_space(more, gaps_left);
        assert(rest.len() > 0 ==> is_space(rest[0])) by {
            assert(gaps_left[0] == gaps[1]);
            assert(is_blank(gaps[1]));
            if more.len() == 0 {
                if rest.len() > 0 {
                    assert(is_space(gaps[1][0]));
                }
            } else {
                assert(gaps[1].len() > 0);
                assert(is_space(gaps[1][0]));
                assert(rest[0] == gaps[1][0]);
            }
        }
        let body = parts[0] + rest;
        assert(text =~= gaps[0] + body);
        lemma_trim_blank(gaps[0], body);
        lemma_first_word(parts[0], rest);
        assert(body.take(parts[0].len() as int) =~= parts[0]);
        assert(body.skip(parts[0].len() as int) =~= rest);
        lemma_trim_start_length(text);
        assert(words(text) =~= seq![parts[0]] + words(rest));
        assert(words(text) =~= parts);
    }
}

proof fn lemma_digits_stop(
    digits: Seq<char>,
    values: Seq<int>,
    c: char,
    rest: Seq<char>,
    radix: nat,
    limit: nat,
)
    requires
        2 <= radix <= 16,
        spells(digits, values, radix as int),
        worth(values, radix as int) <= limit,
        digits_value(digits.push(c), radix, limit) is Err,
    ensures
        digits_value(digits + seq![c] + rest, radix, limit) == digits_value(
            digits.push(c),
            radix,
            limit,
        ),
    decreases rest.len(),
{
    let text = digits + seq![c] + rest;
    if rest.len() == 0 {
        assert(text =~= digits.push(c));
    } else {
        assert(text.drop_last() =~= digits + seq![c] + rest.drop_last());
        lemma_digits_stop(digits, values, c, rest.drop_last(), radix, limit);
    }
}

/// What comes first behind good digits decides: a character that is no digit makes the text no
/// number, and a digit that takes the number above its limit makes it too large, whatever follows.
pub proof fn law_a_number_is_read_up_to_its_first_fault(
    digits: Seq<char>,
    values: Seq<int>,
    c: char,
    rest: Seq<char>,
    radix: nat,
    limit: nat,
)
    requires
        2 <= radix <= 16,
        spells(digits, values, radix as int),
        worth(values, radix as int) <= limit,
    ensures
        ({
            let body = digits + seq![c] + rest;
            let plain = number(body, radix, limit);
            let signed = number(seq!['+'] + body, radix, limit);
            let too_large = Err::<nat, NumberError>(NumberError::TooLarge);
            let invalid = Err::<nat, NumberError>(NumberError::InvalidDigit);
            let has_sign = body.len() > 1 && body[0] == '+';
            &&& (forall|value: int| !(#[trigger] is_digit_below(c, value, radix as int)))
                ==> signed == invalid && (!has_sign ==> plain == invalid)
            &&& (exists|value: int|
                #[trigger] is_digit_below(c, value, radix as int) && worth(values, radix as int)
                    * radix + value > limit) ==> signed == too_large && plain == too_large
        }),
{
    let body = digits + seq![c] + rest;
    let signed = seq!['+'] + body;
    assert(signed.skip(1) =~= body);
    lemma_digits(digits, values, radix, limit);
    assert(digits.push(c).drop_last() =~= digits);
    if digits.len() > 0 {
        assert(is_digit_below(digits[0], values[0], radix as int));
        assert(body[0] == digits[0]);
    } else {
        assert(body[0] == c);
    }
    assert('+' as int == 0x2B);
    if let Some(value) = digit_value(c, radix) {
        lemma_digit(c, radix, value as int);
        assert(is_digit_below(c, value as int, radix as int));
    }
    if exists|value: int|
        #[trigger] is_digit_below(c, value, radix as int) && worth(values, radix as int) * radix
            + value > limit {
        let value = choose|value: int|
            #[trigger] is_digit_below(c, value, radix as int) && worth(values, radix as int)
                * radix + value > limit;
        lemma_digit(c, radix, value);
    }
    if digits_value(digits.push(c), radix, limit) is Err {
        lemma_digits_stop(digits, values, c, rest, radix, limit);
    }
}

} // verus!
