//! White space, words, lines and numbers in text.
//!
//! Text is looked at as a sequence of characters. The specifications say what `str::trim`,
//! `str::split_whitespace`, `str::eq_ignore_ascii_case` and `from_str_radix` of the unsigned
//! integers give.

use vstd::prelude::*;

verus! {

/// Whether a character has the Unicode property White_Space.
pub open spec fn is_white_space(c: char) -> bool {
    let code = c as u32;
    ||| 0x09 <= code <= 0x0D
    ||| code == 0x20
    ||| code == 0x85
    ||| code == 0xA0
    ||| code == 0x1680
    ||| 0x2000 <= code <= 0x200A
    ||| code == 0x2028
    ||| code == 0x2029
    ||| code == 0x202F
    ||| code == 0x205F
    ||| code == 0x3000
}

/// Text without the white space at its start.
pub open spec fn trim_start(text: Seq<char>) -> Seq<char>
    decreases text.len(),
{
    if text.len() > 0 && is_white_space(text[0]) {
        trim_start(text.skip(1))
    } else {
        text
    }
}

/// Text without the white space at its end.
pub open spec fn trim_end(text: Seq<char>) -> Seq<char>
    decreases text.len(),
{
    if text.len() > 0 && is_white_space(text.last()) {
        trim_end(text.drop_last())
    } else {
        text
    }
}

/// Text without the white space at its two ends.
pub open spec fn trim(text: Seq<char>) -> Seq<char> {
    trim_end(trim_start(text))
}

/// The number of characters before the first white space.
pub open spec fn word_length(text: Seq<char>) -> nat
    decreases text.len(),
{
    if text.len() > 0 && !is_white_space(text[0]) {
        1 + word_length(text.skip(1))
    } else {
        0
    }
}

/// The maximal runs of characters that are not white space, in order.
pub open spec fn words(text: Seq<char>) -> Seq<Seq<char>>
    decreases text.len(),
{
    proof {
        lemma_trim_start_length(text);
        lemma_word_length(trim_start(text));
    }
    let rest = trim_start(text);
    if rest.len() == 0 {
        Seq::empty()
    } else {
        seq![rest.take(word_length(rest) as int)] + words(rest.skip(word_length(rest) as int))
    }
}

/// The number of characters before the first line feed.
pub open spec fn line_length(text: Seq<char>) -> nat
    decreases text.len(),
{
    if text.len() > 0 && text[0] != '\n' {
        1 + line_length(text.skip(1))
    } else {
        0
    }
}

/// What follows the first line feed.
pub open spec fn after_line(text: Seq<char>) -> Seq<char> {
    if line_length(text) < text.len() {
        text.skip(line_length(text) as int + 1)
    } else {
        Seq::empty()
    }
}

/// The lower-case letter for an ASCII letter, and any other character as it is.
pub open spec fn ascii_lower(c: char) -> char {
    if 'A' <= c && c <= 'Z' {
        (c as u32 + 32) as char
    } else {
        c
    }
}

/// Whether two texts differ at most in the case of ASCII letters.
pub open spec fn equal_ignoring_case(left: Seq<char>, right: Seq<char>) -> bool {
    &&& left.len() == right.len()
    &&& forall|i: int|
        0 <= i < left.len() ==> ascii_lower(#[trigger] left[i]) == ascii_lower(right[i])
}

/// Why a text is no number.
#[derive(Debug, Clone, Copy, PartialEq, Eq, Structural)]
pub enum NumberError {
    Empty,
    InvalidDigit,
    TooLarge,
}

/// The value of a digit in a radix of at most sixteen.
pub open spec fn digit_value(c: char, radix: nat) -> Option<nat> {
    let code = c as nat;
    let value = if '0' <= c && c <= '9' {
        Some((code - '0' as nat) as nat)
    } else if 'a' <= c && c <= 'f' {
        Some((code - 'a' as nat + 10) as nat)
    } else if 'A' <= c && c <= 'F' {
        Some((code - 'A' as nat + 10) as nat)
    } else {
        None
    };
    match value {
        Some(digit) if digit < radix => Some(digit),
        _ => None,
    }
}

/// The value of a run of digits, read from the left. What stops the reading first decides the
/// error.
pub open spec fn digits_value(digits: Seq<char>, radix: nat, limit: nat) -> Result<
    nat,
    NumberError,
>
    decreases digits.len(),
{
    if digits.len() == 0 {
        Ok(0)
    } else {
        match digits_value(digits.drop_last(), radix, limit) {
            Err(error) => Err(error),
            Ok(value) => match digit_value(digits.last(), radix) {
                None => Err(NumberError::InvalidDigit),
                Some(digit) => if value * radix + digit > limit {
                    Err(NumberError::TooLarge)
                } else {
                    Ok(value * radix + digit)
                },
            },
        }
    }
}

/// The number up to `limit` that a text stands for: digits, behind a plus sign or not.
pub open spec fn number(text: Seq<char>, radix: nat, limit: nat) -> Result<nat, NumberError> {
    if text.len() == 0 {
        Err(NumberError::Empty)
    } else if text.len() > 1 && text[0] == '+' {
        digits_value(text.skip(1), radix, limit)
    } else {
        digits_value(text, radix, limit)
    }
}

/// The digit for a value below sixteen.
pub open spec fn hex_digit(value: nat) -> char {
    if value < 10 {
        ('0' as nat + value) as char
    } else {
        ('A' as nat + (value - 10)) as char
    }
}

/// The digits of a number, without leading zeros.
pub open spec fn digits(value: nat, radix: nat) -> Seq<char>
    recommends
        2 <= radix <= 16,
    decreases value,
{
    if value < radix || radix < 2 {
        seq![hex_digit(value)]
    } else {
        proof {
            lemma_quotient(value, radix);
        }
        digits(value / radix, radix).push(hex_digit(value % radix))
    }
}

pub proof fn lemma_quotient(value: nat, radix: nat)
    requires
        2 <= radix <= value,
    ensures
        0 < value / radix < value,
        value % radix < radix,
        (value / radix) * radix + value % radix == value,
{
    vstd::arithmetic::div_mod::lemma_fundamental_div_mod(value as int, radix as int);
    vstd::arithmetic::div_mod::lemma_div_decreases(value as int, radix as int);
    vstd::arithmetic::div_mod::lemma_div_non_zero(value as int, radix as int);
    vstd::arithmetic::mul::lemma_mul_is_commutative(radix as int, value as int / radix as int);
}

/// Digits stand for the number that they are the digits of.
pub proof fn law_digits_are_read_back(value: nat, radix: nat, limit: nat)
    requires
        2 <= radix <= 16,
        value <= limit,
    ensures
        digits_value(digits(value, radix), radix, limit) == Ok::<nat, NumberError>(value),
        number(digits(value, radix), radix, limit) == Ok::<nat, NumberError>(value),
        digits(value, radix).len() > 0,
        forall|i: int|
            0 <= i < digits(value, radix).len() ==> digit_value(
                #[trigger] digits(value, radix)[i],
                radix,
            ) is Some,
    decreases value,
{
    let text = digits(value, radix);
    if value < radix {
        assert(text.drop_last() =~= Seq::<char>::empty());
        assert(digit_value(hex_digit(value), radix) == Some(value));
        assert(0 * radix == 0) by (nonlinear_arith);
        reveal_with_fuel(digits_value, 2);
    } else {
        lemma_quotient(value, radix);
        let rest = digits(value / radix, radix);
        law_digits_are_read_back(value / radix, radix, limit);
        assert(text.drop_last() =~= rest);
        assert(digit_value(hex_digit(value % radix), radix) == Some(value % radix));
        assert forall|i: int| 0 <= i < text.len() implies digit_value(
            #[trigger] text[i],
            radix,
        ) is Some by {
            if i < rest.len() {
                assert(text[i] == rest[i]);
            }
        }
    }
    assert(digit_value(text[0], radix) is Some);
}

/// Text that neither starts nor ends with white space is left as it is.
pub proof fn lemma_trim_keeps(text: Seq<char>)
    requires
        text.len() > 0 ==> !is_white_space(text[0]) && !is_white_space(text.last()),
    ensures
        trim(text) == text,
{
}

/// White space at either end of a text is trimmed away.
pub proof fn law_trim_ignores_white_space_at_the_ends(text: Seq<char>, c: char)
    requires
        is_white_space(c),
    ensures
        trim(seq![c] + text) == trim(text),
        trim(text.push(c)) == trim(text),
    decreases text.len(),
{
    assert((seq![c] + text).skip(1) =~= text);
    if text.len() == 0 {
        assert(text.push(c).skip(1) =~= text);
    } else if is_white_space(text[0]) {
        law_trim_ignores_white_space_at_the_ends(text.skip(1), c);
        assert(text.push(c).skip(1) =~= text.skip(1).push(c));
    } else {
        assert(text.push(c).drop_last() =~= text);
    }
}

pub proof fn lemma_trim_start_length(text: Seq<char>)
    ensures
        trim_start(text).len() <= text.len(),
        trim_start(text) == text.skip(text.len() - trim_start(text).len()),
        trim_start(text).len() > 0 ==> !is_white_space(trim_start(text)[0]),
    decreases text.len(),
{
    if text.len() > 0 && is_white_space(text[0]) {
        lemma_trim_start_length(text.skip(1));
        let n = text.len() - trim_start(text).len();
        assert(text.skip(1).skip(n - 1) =~= text.skip(n));
    } else {
        assert(text.skip(0) =~= text);
    }
}

pub proof fn lemma_word_length(text: Seq<char>)
    ensures
        word_length(text) <= text.len(),
        forall|i: int| 0 <= i < word_length(text) ==> !is_white_space(#[trigger] text[i]),
        word_length(text) < text.len() ==> is_white_space(text[word_length(text) as int]),
    decreases text.len(),
{
    if text.len() > 0 && !is_white_space(text[0]) {
        let rest = text.skip(1);
        lemma_word_length(rest);
        assert forall|i: int| 0 <= i < word_length(text) implies !is_white_space(
            #[trigger] text[i],
        ) by {
            if i > 0 {
                assert(rest[i - 1] == text[i]);
            }
        }
    }
}

pub proof fn lemma_line_length(text: Seq<char>)
    ensures
        line_length(text) <= text.len(),
        forall|i: int| 0 <= i < line_length(text) ==> #[trigger] text[i] != '\n',
        line_length(text) < text.len() ==> text[line_length(text) as int] == '\n',
    decreases text.len(),
{
    if text.len() > 0 && text[0] != '\n' {
        let rest = text.skip(1);
        lemma_line_length(rest);
        assert forall|i: int| 0 <= i < line_length(text) implies #[trigger] text[i] != '\n' by {
            if i > 0 {
                assert(rest[i - 1] == text[i]);
            }
        }
    }
}

pub proof fn lemma_equal_ignoring_case_carries_over(
    text: Seq<char>,
    left: Seq<char>,
    right: Seq<char>,
)
    requires
        equal_ignoring_case(left, right),
    ensures
        equal_ignoring_case(text, left) <==> equal_ignoring_case(text, right),
{
    if equal_ignoring_case(text, left) {
        assert forall|i: int| 0 <= i < text.len() implies ascii_lower(
            #[trigger] text[i],
        ) == ascii_lower(right[i]) by {
            assert(ascii_lower(left[i]) == ascii_lower(right[i]));
        }
    }
    if equal_ignoring_case(text, right) {
        assert forall|i: int| 0 <= i < text.len() implies ascii_lower(
            #[trigger] text[i],
        ) == ascii_lower(left[i]) by {
            assert(ascii_lower(left[i]) == ascii_lower(right[i]));
        }
    }
}

pub proof fn lemma_equal_ignoring_case_is_symmetric(left: Seq<char>, right: Seq<char>)
    ensures
        equal_ignoring_case(left, right) <==> equal_ignoring_case(right, left),
{
}

/// The case of a letter changes neither its value as a digit nor whether it is white space or a
/// certain sign.
pub proof fn lemma_case_of_a_character(left: char, right: char)
    requires
        ascii_lower(left) == ascii_lower(right),
    ensures
        is_white_space(left) == is_white_space(right),
        forall|radix: nat| digit_value(left, radix) == #[trigger] digit_value(right, radix),
        left == right || left as u32 >= 0x41 && left as u32 <= 0x7A && right as u32 >= 0x41
            && right as u32 <= 0x7A,
{
}

proof fn lemma_case_of_digits(left: Seq<char>, right: Seq<char>, radix: nat, limit: nat)
    requires
        equal_ignoring_case(left, right),
    ensures
        digits_value(left, radix, limit) == digits_value(right, radix, limit),
    decreases left.len(),
{
    if left.len() > 0 {
        let last = left.len() - 1;
        assert(ascii_lower(left[last]) == ascii_lower(right[last]));
        lemma_case_of_a_character(left[last], right[last]);
        assert(equal_ignoring_case(left.drop_last(), right.drop_last()));
        lemma_case_of_digits(left.drop_last(), right.drop_last(), radix, limit);
    }
}

/// A number is the same in whatever case its digits are written.
pub proof fn law_case_of_digits_is_ignored(
    left: Seq<char>,
    right: Seq<char>,
    radix: nat,
    limit: nat,
)
    requires
        equal_ignoring_case(left, right),
    ensures
        number(left, radix, limit) == number(right, radix, limit),
{
    lemma_case_of_digits(left, right, radix, limit);
    if left.len() > 0 {
        assert(ascii_lower(left[0]) == ascii_lower(right[0]));
        lemma_case_of_a_character(left[0], right[0]);
        assert(equal_ignoring_case(left.skip(1), right.skip(1)));
        lemma_case_of_digits(left.skip(1), right.skip(1), radix, limit);
    }
}

proof fn lemma_case_and_trim_start(left: Seq<char>, right: Seq<char>)
    requires
        equal_ignoring_case(left, right),
    ensures
        equal_ignoring_case(trim_start(left), trim_start(right)),
    decreases left.len(),
{
    if left.len() > 0 {
        assert(ascii_lower(left[0]) == ascii_lower(right[0]));
        lemma_case_of_a_character(left[0], right[0]);
        if is_white_space(left[0]) {
            assert(equal_ignoring_case(left.skip(1), right.skip(1)));
            lemma_case_and_trim_start(left.skip(1), right.skip(1));
        }
    }
}

proof fn lemma_case_and_trim_end(left: Seq<char>, right: Seq<char>)
    requires
        equal_ignoring_case(left, right),
    ensures
        equal_ignoring_case(trim_end(left), trim_end(right)),
    decreases left.len(),
{
    if left.len() > 0 {
        let last = left.len() - 1;
        assert(ascii_lower(left[last]) == ascii_lower(right[last]));
        lemma_case_of_a_character(left[last], right[last]);
        if is_white_space(left.last()) {
            assert(equal_ignoring_case(left.drop_last(), right.drop_last()));
            lemma_case_and_trim_end(left.drop_last(), right.drop_last());
        }
    }
}

/// Texts that differ in case alone do so when they are trimmed.
pub proof fn lemma_case_and_trim(left: Seq<char>, right: Seq<char>)
    requires
        equal_ignoring_case(left, right),
    ensures
        equal_ignoring_case(trim(left), trim(right)),
{
    lemma_case_and_trim_start(left, right);
    lemma_case_and_trim_end(trim_start(left), trim_start(right));
}

/// The characters of a string.
pub(crate) fn characters(text: &str) -> (chars: Vec<char>)
    ensures
        chars@ == text@,
{
    let mut chars: Vec<char> = Vec::new();
    for c in it: text.chars()
        invariant
            chars@ == it.seq().take(it.index()),
            it.seq() == text@,
    {
        assert(it.seq().take(it.index() + 1) =~= it.seq().take(it.index()).push(c));
        chars.push(c);
    }
    assert(text@.take(text@.len() as int) =~= text@);
    chars
}

/// Whether a character is white space.
pub(crate) fn char_is_white_space(c: char) -> (result: bool)
    ensures
        result == is_white_space(c),
{
    let code: u32 = c as u32;
    (0x09 <= code && code <= 0x0D) || code == 0x20 || code == 0x85 || code == 0xA0 || code
        == 0x1680 || (0x2000 <= code && code <= 0x200A) || code == 0x2028 || code == 0x2029 || code
        == 0x202F || code == 0x205F || code == 0x3000
}

/// Where the text between `start` and `end` has its first character that is not white space.
pub(crate) fn skip_white_space(chars: &[char], start: usize, end: usize) -> (first: usize)
    requires
        start <= end <= chars@.len(),
    ensures
        start <= first <= end,
        trim_start(chars@.subrange(start as int, end as int)) == chars@.subrange(
            first as int,
            end as int,
        ),
{
    let mut first: usize = start;
    while first < end && char_is_white_space(chars[first])
        invariant
            start <= first <= end <= chars@.len(),
            trim_start(chars@.subrange(start as int, end as int)) == trim_start(
                chars@.subrange(first as int, end as int),
            ),
        decreases end - first,
    {
        let ghost rest = chars@.subrange(first as int, end as int);
        assert(rest.skip(1) =~= chars@.subrange(first + 1, end as int));
        first += 1;
    }
    first
}

/// The range of `chars` that is left when the range from `start` to `end` is trimmed.
pub(crate) fn trim_range(chars: &[char], start: usize, end: usize) -> (range: (usize, usize))
    requires
        start <= end <= chars@.len(),
    ensures
        start <= range.0 <= range.1 <= end,
        chars@.subrange(range.0 as int, range.1 as int) == trim(
            chars@.subrange(start as int, end as int),
        ),
{
    let first: usize = skip_white_space(chars, start, end);
    let mut last: usize = end;
    while first < last && char_is_white_space(chars[last - 1])
        invariant
            start <= first <= last <= end <= chars@.len(),
            trim_end(chars@.subrange(first as int, end as int)) == trim_end(
                chars@.subrange(first as int, last as int),
            ),
        decreases last - first,
    {
        let ghost rest = chars@.subrange(first as int, last as int);
        assert(rest.drop_last() =~= chars@.subrange(first as int, last - 1));
        last -= 1;
    }
    (first, last)
}

/// Where the word that starts at `start` ends.
pub(crate) fn word_end(chars: &[char], start: usize, end: usize) -> (stop: usize)
    requires
        start <= end <= chars@.len(),
    ensures
        start <= stop <= end,
        stop - start == word_length(chars@.subrange(start as int, end as int)),
{
    let mut stop: usize = start;
    while stop < end && !char_is_white_space(chars[stop])
        invariant
            start <= stop <= end <= chars@.len(),
            word_length(chars@.subrange(start as int, end as int)) == (stop - start) + word_length(
                chars@.subrange(stop as int, end as int),
            ),
        decreases end - stop,
    {
        let ghost rest = chars@.subrange(stop as int, end as int);
        assert(rest.skip(1) =~= chars@.subrange(stop + 1, end as int));
        stop += 1;
    }
    stop
}

/// Where the line that starts at `start` ends.
pub(crate) fn line_end(chars: &[char], start: usize) -> (stop: usize)
    requires
        start <= chars@.len(),
    ensures
        start <= stop <= chars@.len(),
        stop - start == line_length(chars@.skip(start as int)),
{
    let mut stop: usize = start;
    while stop < chars.len() && chars[stop] != '\n'
        invariant
            start <= stop <= chars@.len(),
            line_length(chars@.skip(start as int)) == (stop - start) + line_length(
                chars@.skip(stop as int),
            ),
        decreases chars@.len() - stop,
    {
        let ghost rest = chars@.skip(stop as int);
        assert(rest.skip(1) =~= chars@.skip(stop + 1));
        stop += 1;
    }
    stop
}

/// The lower-case letter for an ASCII letter.
fn lower(c: char) -> (result: char)
    ensures
        result == ascii_lower(c),
{
    if 'A' <= c && c <= 'Z' {
        let code: u8 = c as u8;
        (code + 32) as char
    } else {
        c
    }
}

/// Compares two texts as `str::eq_ignore_ascii_case` does.
pub(crate) fn eq_ignoring_case(left: &str, right: &str) -> (result: bool)
    ensures
        result == equal_ignoring_case(left@, right@),
{
    let left_chars: Vec<char> = characters(left);
    let right_chars: Vec<char> = characters(right);
    if left_chars.len() != right_chars.len() {
        return false;
    }
    let mut i: usize = 0;
    while i < left_chars.len()
        invariant
            left_chars@ == left@,
            right_chars@ == right@,
            left@.len() == right@.len(),
            i <= left@.len(),
            forall|j: int|
                0 <= j < i ==> ascii_lower(#[trigger] left@[j]) == ascii_lower(right@[j]),
        decreases left@.len() - i,
    {
        if lower(left_chars[i]) != lower(right_chars[i]) {
            assert(ascii_lower(left@[i as int]) != ascii_lower(right@[i as int]));
            return false;
        }
        i += 1;
    }
    true
}

/// The value of a digit.
fn digit(c: char, radix: u32) -> (result: Option<u32>)
    requires
        radix <= 16,
    ensures
        match result {
            Some(value) => digit_value(c, radix as nat) == Some(value as nat) && value < radix,
            None => digit_value(c, radix as nat) is None,
        },
{
    let value: u32 = if '0' <= c && c <= '9' {
        c as u32 - '0' as u32
    } else if 'a' <= c && c <= 'f' {
        c as u32 - 'a' as u32 + 10
    } else if 'A' <= c && c <= 'F' {
        c as u32 - 'A' as u32 + 10
    } else {
        return None;
    };
    if value < radix {
        Some(value)
    } else {
        None
    }
}

proof fn lemma_digits_error_stays(digits: Seq<char>, more: int, radix: nat, limit: nat)
    requires
        0 <= more <= digits.len(),
        digits_value(digits.take(more), radix, limit) is Err,
    ensures
        digits_value(digits, radix, limit) == digits_value(digits.take(more), radix, limit),
    decreases digits.len(),
{
    if more == digits.len() {
        assert(digits.take(more) =~= digits);
    } else {
        assert(digits.drop_last().take(more) =~= digits.take(more));
        lemma_digits_error_stays(digits.drop_last(), more, radix, limit);
    }
}

/// No number lies over its limit.
pub proof fn lemma_number_limit(text: Seq<char>, radix: nat, limit: nat)
    ensures
        number(text, radix, limit) matches Ok(value) ==> value <= limit,
{
}

/// Reads a number up to `limit` in a radix of at most sixteen.
pub(crate) fn parse_number(text: &[char], radix: u32, limit: u32) -> (result: Result<
    u32,
    NumberError,
>)
    requires
        1 <= radix <= 16,
    ensures
        match result {
            Ok(value) => number(text@, radix as nat, limit as nat) == Ok::<nat, NumberError>(
                value as nat,
            ),
            Err(error) => number(text@, radix as nat, limit as nat) == Err::<nat, NumberError>(
                error,
            ),
        },
{
    if text.len() == 0 {
        return Err(NumberError::Empty);
    }
    let start: usize = if text.len() > 1 && text[0] == '+' {
        1
    } else {
        0
    };
    let ghost digits = text@.skip(start as int);
    assert(text@.skip(0) =~= text@);
    let mut value: u32 = 0;
    let mut i: usize = start;
    while i < text.len()
        invariant
            1 <= radix <= 16,
            start <= i <= text@.len(),
            digits == text@.skip(start as int),
            number(text@, radix as nat, limit as nat) == digits_value(
                digits,
                radix as nat,
                limit as nat,
            ),
            digits_value(digits.take(i - start), radix as nat, limit as nat) == Ok::<
                nat,
                NumberError,
            >(value as nat),
        decreases text@.len() - i,
    {
        let ghost read = digits.take(i - start + 1);
        assert(read.drop_last() =~= digits.take(i - start));
        assert(read.last() == text@[i as int]);
        match digit(text[i], radix) {
            None => {
                proof {
                    lemma_digits_error_stays(digits, i - start + 1, radix as nat, limit as nat);
                }
                return Err(NumberError::InvalidDigit);
            },
            Some(digit) => {
                assert(value * radix <= 0xFFFF_FFFF * 16) by (nonlinear_arith)
                    requires
                        value <= 0xFFFF_FFFF,
                        radix <= 16,
                ;
                let next: u64 = value as u64 * radix as u64 + digit as u64;
                if next > limit as u64 {
                    proof {
                        lemma_digits_error_stays(digits, i - start + 1, radix as nat, limit as nat);
                    }
                    return Err(NumberError::TooLarge);
                }
                value = next as u32;
            },
        }
        i += 1;
    }
    assert(digits.take(i - start) =~= digits);
    Ok(value)
}

} // verus!
