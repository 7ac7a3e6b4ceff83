//! What does not count in an Intel HEX file.

use crate::hex::{
    big_endian_16, byte_sum, hex_bytes, hex_memory, law_case_of_a_line_is_ignored, line_outcome,
    lines_memory, LineOutcome,
};
use crate::memory::{
    covers, law_place_order_is_irrelevant, law_place_overlays, lemma_overlaid_byte, place,
};
use crate::text::{after_line, equal_ignoring_case, lemma_line_length, line_length, trim};
use vstd::prelude::*;

verus! {

/// The lines of a text, without their line feeds. A line feed at the end starts no line.
pub open spec fn lines(text: Seq<char>) -> Seq<Seq<char>>
    decreases text.len(),
{
    proof {
        lemma_line_length(text);
    }
    if text.len() == 0 {
        Seq::empty()
    } else {
        seq![text.take(line_length(text) as int)] + lines(after_line(text))
    }
}

/// How far the reading of a file has come.
pub enum Reading {
    /// More lines are read, with this address base and memory.
    Going { base: u32, memory: Map<u32, u8> },
    /// The end-of-file record was read.
    Ended { memory: Map<u32, u8> },
    Failed,
}

/// How far the reading has come behind lines.
pub open spec fn reading(lines: Seq<Seq<char>>, base: u32, memory: Map<u32, u8>) -> Reading
    decreases lines.len(),
{
    if lines.len() == 0 {
        Reading::Going { base, memory }
    } else {
        match line_outcome(lines[0], 0, base, memory) {
            LineOutcome::Continue { base: next_base, memory: next_memory } => reading(
                lines.skip(1),
                next_base,
                next_memory,
            ),
            LineOutcome::EndOfFile => Reading::Ended { memory },
            LineOutcome::Failed(_) => Reading::Failed,
        }
    }
}

/// The bytes of the record in a line, where there is a record with the right length and checksum.
pub open spec fn record_of(line: Seq<char>) -> Option<Seq<u8>> {
    let record = trim(line);
    if record.len() > 0 && record[0] == ':' {
        match hex_bytes(record.skip(1)) {
            Ok(raw) => if raw.len() >= 5 && raw.len() == raw[0] + 5 && byte_sum(raw) % 256 == 0 {
                Some(raw)
            } else {
                None
            },
            Err(_) => None,
        }
    } else {
        None
    }
}

/// Whether a line holds a data record.
pub open spec fn is_data_line(line: Seq<char>) -> bool {
    record_of(line) matches Some(raw) && raw[3] == 0x00
}

/// Whether a line holds a record with a start address.
pub open spec fn is_start_address_line(line: Seq<char>) -> bool {
    record_of(line) matches Some(raw) && (raw[3] == 0x03 || raw[3] == 0x05)
}

/// A change in the lines of a file.
pub enum Change {
    /// A line is added.
    Blank { line: Seq<char> },
    /// A line is written with other white space around it.
    Spacing { line: Seq<char>, other: Seq<char> },
    /// A line is written with letters in another case.
    LetterCase { line: Seq<char>, other: Seq<char> },
    /// A record with a start address is added.
    StartAddress { line: Seq<char> },
    /// A line is repeated.
    Repetition { line: Seq<char> },
    /// Two lines change places.
    Swap { first: Seq<char>, second: Seq<char> },
}

impl Change {
    /// The lines that are changed.
    pub open spec fn before(self) -> Seq<Seq<char>> {
        match self {
            Change::Blank { .. } => Seq::empty(),
            Change::Spacing { line, .. } => seq![line],
            Change::LetterCase { line, .. } => seq![line],
            Change::StartAddress { .. } => Seq::empty(),
            Change::Repetition { line } => seq![line],
            Change::Swap { first, second } => seq![first, second],
        }
    }

    /// The lines that stand in their place.
    pub open spec fn after(self) -> Seq<Seq<char>> {
        match self {
            Change::Blank { line } => seq![line],
            Change::Spacing { other, .. } => seq![other],
            Change::LetterCase { other, .. } => seq![other],
            Change::StartAddress { line } => seq![line],
            Change::Repetition { line } => seq![line, line],
            Change::Swap { first, second } => seq![second, first],
        }
    }

    /// Whether the change does not count: what is added is blank or a start address, what is
    /// written anew is the same but for white space around it or the case of letters, and what
    /// changes places is data. Any line may be repeated.
    pub open spec fn is_harmless(self) -> bool {
        match self {
            Change::Blank { line } => trim(line).len() == 0,
            Change::Spacing { line, other } => trim(line) == trim(other),
            Change::LetterCase { line, other } => equal_ignoring_case(line, other),
            Change::StartAddress { line } => is_start_address_line(line),
            Change::Repetition { .. } => true,
            Change::Swap { first, second } => is_data_line(first) && is_data_line(second),
        }
    }
}

/// Whether a text becomes another one by a change behind the lines `before` and ahead of the lines
/// `after`.
pub open spec fn becomes(
    text: Seq<char>,
    other: Seq<char>,
    before: Seq<Seq<char>>,
    change: Change,
    after: Seq<Seq<char>>,
) -> bool {
    &&& lines(text) == before + change.before() + after
    &&& lines(other) == before + change.after() + after
}

/// Whether a text becomes another one by a change that does not count.
pub open spec fn becomes_harmlessly(text: Seq<char>, other: Seq<char>) -> bool {
    exists|before: Seq<Seq<char>>, change: Change, after: Seq<Seq<char>>|
        #[trigger] becomes(text, other, before, change, after) && change.is_harmless()
}

/// Whether one of two texts becomes the other by a change that does not count.
pub open spec fn differ_harmlessly(text: Seq<char>, other: Seq<char>) -> bool {
    becomes_harmlessly(text, other) || becomes_harmlessly(other, text)
}

/// Whether two files give the same memory, or both none.
pub open spec fn read_alike(text: Seq<char>, other: Seq<char>) -> bool {
    match (hex_memory(text), hex_memory(other)) {
        (Ok(memory), Ok(same)) => memory == same,
        (Err(_), Err(_)) => true,
        _ => false,
    }
}

/// The number of a line shows in an error and nowhere else.
pub proof fn lemma_line_number(
    text: Seq<char>,
    line: usize,
    other: usize,
    base: u32,
    memory: Map<u32, u8>,
)
    ensures
        line_outcome(text, line, base, memory) == line_outcome(text, other, base, memory) || (
        line_outcome(text, line, base, memory) is Failed && line_outcome(
            text,
            other,
            base,
            memory,
        ) is Failed),
{
}

pub proof fn lemma_lines_memory(text: Seq<char>, line: nat, base: u32, memory: Map<u32, u8>)
    ensures
        match reading(lines(text), base, memory) {
            Reading::Going { memory: result, .. } => lines_memory(text, line, base, memory)
                matches Ok(same) && same == result,
            Reading::Ended { memory: result } => lines_memory(text, line, base, memory)
                matches Ok(same) && same == result,
            Reading::Failed => lines_memory(text, line, base, memory) is Err,
        },
    decreases text.len(),
{
    if text.len() > 0 {
        let first = text.take(line_length(text) as int);
        lemma_line_length(text);
        lemma_line_number(first, 0, line as usize, base, memory);
        assert(lines(text)[0] == first);
        assert(lines(text).skip(1) =~= lines(after_line(text)));
        if let LineOutcome::Continue { base: next_base, memory: next_memory } = line_outcome(
            first,
            0,
            base,
            memory,
        ) {
            lemma_lines_memory(after_line(text), line + 1, next_base, next_memory);
        }
    }
}

/// Where the reading goes on with lines behind others.
pub open spec fn reading_on(reading_so_far: Reading, more: Seq<Seq<char>>) -> Reading {
    match reading_so_far {
        Reading::Going { base, memory } => reading(more, base, memory),
        stopped => stopped,
    }
}

pub proof fn lemma_reading_on(
    first: Seq<Seq<char>>,
    second: Seq<Seq<char>>,
    base: u32,
    memory: Map<u32, u8>,
)
    ensures
        reading(first + second, base, memory) == reading_on(reading(first, base, memory), second),
    decreases first.len(),
{
    if first.len() == 0 {
        assert(first + second =~= second);
    } else {
        assert((first + second).skip(1) =~= first.skip(1) + second);
        if let LineOutcome::Continue { base: next_base, memory: next_memory } = line_outcome(
            first[0],
            0,
            base,
            memory,
        ) {
            lemma_reading_on(first.skip(1), second, next_base, next_memory);
        }
    }
}

pub proof fn lemma_reading_one(line: Seq<char>, base: u32, memory: Map<u32, u8>)
    ensures
        reading(seq![line], base, memory) == (match line_outcome(line, 0, base, memory) {
            LineOutcome::Continue { base: next_base, memory: next_memory } => Reading::Going {
                base: next_base,
                memory: next_memory,
            },
            LineOutcome::EndOfFile => Reading::Ended { memory },
            LineOutcome::Failed(_) => Reading::Failed,
        }),
{
    assert(seq![line].skip(1) =~= Seq::<Seq<char>>::empty());
    reveal_with_fuel(reading, 2);
}

proof fn lemma_reading_two(first: Seq<char>, second: Seq<char>, base: u32, memory: Map<u32, u8>)
    ensures
        reading(seq![first, second], base, memory) == reading_on(
            reading(seq![first], base, memory),
            seq![second],
        ),
{
    assert(seq![first, second] =~= seq![first] + seq![second]);
    lemma_reading_on(seq![first], seq![second], base, memory);
}

/// Bytes that found a place find it again, and change nothing.
proof fn lemma_place_again(memory: Map<u32, u8>, address: int, bytes: Seq<u8>)
    requires
        0 <= address,
        place(memory, address, bytes) is Ok,
    ensures
        place(place(memory, address, bytes)->Ok_0, address, bytes) == place(memory, address, bytes),
{
    let once = place(memory, address, bytes)->Ok_0;
    law_place_overlays(memory, address, bytes);
    law_place_overlays(once, address, bytes);
    assert forall|key: u32| #[trigger]
        once.contains_key(key) && covers(address, bytes, key) implies once[key] == bytes[key
        - address] by {
        lemma_overlaid_byte(memory, address, bytes, once, key);
    }
    let twice = place(once, address, bytes)->Ok_0;
    assert forall|key: u32|
        #![trigger twice.contains_key(key)]
        #![trigger once.contains_key(key)]
        twice.contains_key(key) == once.contains_key(key) && (once.contains_key(key)
            ==> twice[key] == once[key]) by {
        if covers(address, bytes, key) {
            lemma_overlaid_byte(memory, address, bytes, once, key);
        }
    }
    assert(twice =~= once);
}

proof fn lemma_repetition(line: Seq<char>, base: u32, memory: Map<u32, u8>)
    ensures
        reading(seq![line, line], base, memory) == reading(seq![line], base, memory),
{
    lemma_reading_two(line, line, base, memory);
    lemma_reading_one(line, base, memory);
    if let LineOutcome::Continue { base: next_base, memory: next_memory } = line_outcome(
        line,
        0,
        base,
        memory,
    ) {
        lemma_reading_one(line, next_base, next_memory);
        if let Some(raw) = record_of(line) {
            let payload = raw.subrange(4, 4 + raw[0]);
            if raw[3] == 0x00 {
                lemma_place_again(memory, base + big_endian_16(raw, 1), payload);
            }
        }
    }
}

/// What a data line does.
proof fn lemma_data_line(line: Seq<char>, base: u32, memory: Map<u32, u8>)
    requires
        is_data_line(line),
    ensures
        ({
            let raw = record_of(line)->0;
            let payload = raw.subrange(4, 4 + raw[0]);
            reading(seq![line], base, memory) == (match place(
                memory,
                base + big_endian_16(raw, 1),
                payload,
            ) {
                Ok(placed) => Reading::Going { base, memory: placed },
                Err(_) => Reading::Failed,
            })
        }),
{
    lemma_reading_one(line, base, memory);
}

proof fn lemma_swap(first: Seq<char>, second: Seq<char>, base: u32, memory: Map<u32, u8>)
    requires
        is_data_line(first),
        is_data_line(second),
        reading(seq![first, second], base, memory) is Going,
    ensures
        reading(seq![second, first], base, memory) == reading(seq![first, second], base, memory),
{
    let one = record_of(first)->0;
    let two = record_of(second)->0;
    let one_address = base + big_endian_16(one, 1);
    let two_address = base + big_endian_16(two, 1);
    let one_bytes = one.subrange(4, 4 + one[0]);
    let two_bytes = two.subrange(4, 4 + two[0]);
    lemma_reading_two(first, second, base, memory);
    lemma_reading_two(second, first, base, memory);
    lemma_data_line(first, base, memory);
    lemma_data_line(second, base, memory);
    lemma_data_line(second, base, place(memory, one_address, one_bytes)->Ok_0);
    law_place_order_is_irrelevant(memory, one_address, one_bytes, two_address, two_bytes);
    lemma_data_line(first, base, place(memory, two_address, two_bytes)->Ok_0);
}

/// The lines of a change that does not count do the same before and after it.
proof fn lemma_harmless(change: Change, base: u32, memory: Map<u32, u8>)
    requires
        change.is_harmless(),
    ensures
        reading(change.before(), base, memory) == reading(change.after(), base, memory),
{
    match change {
        Change::Blank { line } => {
            lemma_reading_one(line, base, memory);
        },
        Change::Spacing { line, other } => {
            lemma_reading_one(line, base, memory);
            lemma_reading_one(other, base, memory);
        },
        Change::LetterCase { line, other } => {
            lemma_reading_one(line, base, memory);
            lemma_reading_one(other, base, memory);
            law_case_of_a_line_is_ignored(line, other, 0, base, memory);
        },
        Change::StartAddress { line } => {
            lemma_reading_one(line, base, memory);
        },
        Change::Repetition { line } => {
            lemma_repetition(line, base, memory);
        },
        Change::Swap { first, second } => {
            lemma_reading_two(first, second, base, memory);
            lemma_reading_two(second, first, base, memory);
            lemma_swap_stops(first, second, base, memory);
            if reading(seq![first, second], base, memory) is Going {
                lemma_swap(first, second, base, memory);
            } else if reading(seq![second, first], base, memory) is Going {
                lemma_swap(second, first, base, memory);
            }
        },
    }
}

/// Two data lines never end a file.
proof fn lemma_swap_stops(first: Seq<char>, second: Seq<char>, base: u32, memory: Map<u32, u8>)
    requires
        is_data_line(first),
        is_data_line(second),
    ensures
        !(reading(seq![first, second], base, memory) is Ended),
        !(reading(seq![second, first], base, memory) is Ended),
{
    lemma_reading_two(first, second, base, memory);
    lemma_reading_two(second, first, base, memory);
    lemma_data_line(first, base, memory);
    lemma_data_line(second, base, memory);
    if let Reading::Going { base: next, memory: placed } = reading(seq![first], base, memory) {
        lemma_data_line(second, next, placed);
    }
    if let Reading::Going { base: next, memory: placed } = reading(seq![second], base, memory) {
        lemma_data_line(first, next, placed);
    }
}

proof fn lemma_change(
    text: Seq<char>,
    other: Seq<char>,
    before: Seq<Seq<char>>,
    change: Change,
    after: Seq<Seq<char>>,
)
    requires
        change.is_harmless(),
        becomes(text, other, before, change, after),
    ensures
        read_alike(text, other),
{
    let empty = Map::<u32, u8>::empty();
    let so_far = reading(before, 0, empty);
    lemma_reading_on(before + change.before(), after, 0, empty);
    lemma_reading_on(before + change.after(), after, 0, empty);
    lemma_reading_on(before, change.before(), 0, empty);
    lemma_reading_on(before, change.after(), 0, empty);
    if let Reading::Going { base, memory } = so_far {
        lemma_harmless(change, base, memory);
    }
    lemma_lines_memory(text, 1, 0, empty);
    lemma_lines_memory(other, 1, 0, empty);
}

/// Changes that do not count leave what a file gives as it is: any number of them, one behind the
/// other, each made or taken back. They are blank lines, white space around lines, the case of
/// letters, records with a start address, lines that are repeated, and data lines that change
/// places with the next one.
pub proof fn law_harmless_changes_do_not_count(texts: Seq<Seq<char>>)
    requires
        texts.len() > 0,
        forall|i: int, j: int|
            0 <= i && j == i + 1 && j < texts.len() ==> differ_harmlessly(
                #[trigger] texts[i],
                #[trigger] texts[j],
            ),
    ensures
        read_alike(texts.first(), texts.last()),
    decreases texts.len(),
{
    if texts.len() > 1 {
        let shorter = texts.drop_last();
        assert forall|i: int, j: int|
            0 <= i && j == i + 1 && j < shorter.len() implies differ_harmlessly(
            #[trigger] shorter[i],
            #[trigger] shorter[j],
        ) by {
            assert(shorter[i] == texts[i] && shorter[j] == texts[j]);
        }
        law_harmless_changes_do_not_count(shorter);
        let text = texts[texts.len() - 2];
        let other = texts[texts.len() - 1];
        assert(differ_harmlessly(text, other));
        if becomes_harmlessly(text, other) {
            lemma_harmless_change(text, other);
        } else {
            lemma_harmless_change(other, text);
        }
    }
}

proof fn lemma_harmless_change(text: Seq<char>, other: Seq<char>)
    requires
        becomes_harmlessly(text, other),
    ensures
        read_alike(text, other),
{
    let (before, change, after) = choose|
        before: Seq<Seq<char>>,
        change: Change,
        after: Seq<Seq<char>>,
    |
        #[trigger] becomes(text, other, before, change, after) && change.is_harmless();
    lemma_change(text, other, before, change, after);
}

/// A text is split at its line feeds, and the last line needs none.
pub proof fn law_text_is_split_at_line_feeds(first: Seq<char>, rest: Seq<char>)
    requires
        !first.contains('\n'),
    ensures
        lines(first + seq!['\n'] + rest) == seq![first] + lines(rest),
        first.len() > 0 ==> lines(first) == seq![first],
        lines(Seq::empty()) == Seq::<Seq<char>>::empty(),
{
    let text = first + seq!['\n'] + rest;
    lemma_line_length(text);
    lemma_line_length(first);
    assert(text[first.len() as int] == '\n');
    let length = line_length(text) as int;
    assert(length == first.len()) by {
        if length < first.len() {
            assert(first[length] == text[length]);
            assert(first.contains('\n'));
        }
    }
    assert(text.take(length) =~= first);
    assert(text.skip(length + 1) =~= rest);
    let whole = line_length(first) as int;
    assert(whole == first.len()) by {
        if whole < first.len() {
            assert(first[whole] == '\n');
            assert(first.contains('\n'));
        }
    }
    assert(first.take(whole) =~= first);
    assert(lines(Seq::empty()) =~= Seq::<Seq<char>>::empty());
    if first.len() > 0 {
        assert(lines(first) =~= seq![first] + lines(Seq::empty()));
        assert(lines(first) =~= seq![first]);
    }
}

} // verus!
