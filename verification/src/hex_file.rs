//! What an Intel HEX file says, record by record.

use crate::hex::{
    byte_sum, hex_bytes, hex_memory, line_outcome, lines_memory, pair_bytes, record_outcome,
    utf8_length, utf8_width, DecodeError, HexError, LineOutcome,
};
use crate::hex_laws::{
    lemma_line_number, lemma_lines_memory, lemma_reading_on, lemma_reading_one, lines, reading,
    Reading,
};
use crate::memory::{agrees, covers, law_place_overlays, lemma_overlaid_byte, place};
use crate::text::{after_line, lemma_line_length, line_length, number, NumberError};
use crate::text_laws::{
    denotes, is_blank, is_digit, is_digit_below, is_numeral, is_space,
    law_numbers_are_read_as_their_numerals, law_trimming_takes_off_white_space, spells, worth,
};
use vstd::prelude::*;

verus! {

/// The sum of bytes, from the first one on.
pub open spec fn total(bytes: Seq<u8>) -> int
    decreases bytes.len(),
{
    if bytes.len() == 0 {
        0
    } else {
        bytes[0] + total(bytes.skip(1))
    }
}

/// Whether two characters are the hexadecimal digits of a byte, or a plus sign and one digit.
pub open spec fn is_pair_of(upper: char, lower: char, byte: u8) -> bool {
    ||| is_digit(upper, byte as int / 16) && is_digit(lower, byte as int % 16)
    ||| upper == '+' && is_digit(lower, byte as int)
}

/// Whether a text is made of the hexadecimal digits of bytes, two for each.
pub open spec fn are_pairs(text: Seq<char>, bytes: Seq<u8>) -> bool {
    &&& text.len() == 2 * bytes.len()
    &&& forall|i: int|
        0 <= i < bytes.len() ==> is_pair_of(text[2 * i], text[2 * i + 1], #[trigger] bytes[i])
}

/// What a record says.
pub struct Record {
    pub offset: int,
    pub kind: int,
    pub payload: Seq<u8>,
}

/// Whether bytes are those of a record: the length of its payload, its offset, highest byte first,
/// its kind, its payload, and a last byte that makes the sum of all a multiple of 256.
pub open spec fn are_bytes_of(raw: Seq<u8>, record: Record) -> bool {
    &&& raw.len() == record.payload.len() + 5
    &&& raw[0] == record.payload.len()
    &&& raw[1] * 0x100 + raw[2] == record.offset
    &&& raw[3] == record.kind
    &&& raw.subrange(4, raw.len() - 1) == record.payload
    &&& total(raw) % 256 == 0
}

/// Whether a line is a colon and the digits of bytes, with white space around it.
pub open spec fn is_line_of(
    line: Seq<char>,
    left: Seq<char>,
    text: Seq<char>,
    right: Seq<char>,
    raw: Seq<u8>,
) -> bool {
    &&& is_blank(left)
    &&& is_blank(right)
    &&& line == left + (seq![':'] + text) + right
    &&& are_pairs(text, raw)
}

/// Whether a line holds bytes.
pub open spec fn holds_bytes(line: Seq<char>, raw: Seq<u8>) -> bool {
    exists|left: Seq<char>, text: Seq<char>, right: Seq<char>| #[trigger]
        is_line_of(line, left, text, right, raw)
}

/// Whether a line holds a record.
pub open spec fn holds(line: Seq<char>, record: Record) -> bool {
    exists|raw: Seq<u8>| #[trigger] holds_bytes(line, raw) && are_bytes_of(raw, record)
}

/// Whether lines are, one by one, blank or records.
pub open spec fn are_entries(lines: Seq<Seq<char>>, entries: Seq<Option<Record>>) -> bool {
    &&& lines.len() == entries.len()
    &&& forall|k: int|
        0 <= k < lines.len() ==> match entries[k] {
            None => is_blank(#[trigger] lines[k]),
            Some(record) => holds(lines[k], record),
        }
}

/// The address base at an entry: what the last record before it with an upper address says, 16 or
/// 65536 times its two bytes, highest first.
pub open spec fn base_at(entries: Seq<Option<Record>>, k: int) -> int
    decreases k,
{
    if k <= 0 {
        0
    } else {
        match entries[k - 1] {
            Some(record) => if record.kind == 2 {
                (record.payload[0] * 0x100 + record.payload[1]) * 16
            } else if record.kind == 4 {
                (record.payload[0] * 0x100 + record.payload[1]) * 65536
            } else {
                base_at(entries, k - 1)
            },
            None => base_at(entries, k - 1),
        }
    }
}

/// Whether no entry before this one ends the file.
pub open spec fn is_live(entries: Seq<Option<Record>>, k: int) -> bool {
    forall|l: int|
        0 <= l < k ==> (#[trigger] entries[l] matches Some(record) ==> record.kind != 1)
}

/// Whether byte `j` of the payload of entry `k` goes to an address: the base, the offset of the
/// record and the place in the payload, added up.
pub open spec fn puts(entries: Seq<Option<Record>>, k: int, j: int, address: int) -> bool {
    &&& 0 <= k < entries.len()
    &&& is_live(entries, k)
    &&& entries[k] matches Some(record) && record.kind == 0 && 0 <= j < record.payload.len()
        && address == base_at(entries, k) + record.offset + j
}

/// Byte `j` of the payload of entry `k`.
pub open spec fn put_byte(entries: Seq<Option<Record>>, k: int, j: int) -> u8 {
    entries[k]->0.payload[j]
}

/// Whether an entry can be read behind those before it: it is of a known kind, an upper address
/// has two bytes, and data does not run past the last address nor differ from data before it.
pub open spec fn is_readable(entries: Seq<Option<Record>>, k: int) -> bool {
    is_live(entries, k) ==> {
        &&& entries[k] matches Some(record) ==> 0 <= record.kind <= 5 && (record.kind == 2
            || record.kind == 4 ==> record.payload.len() == 2)
        &&& forall|j: int, address: int| #[trigger] puts(entries, k, j, address) ==> address
            <= u32::MAX
        &&& forall|j: int, l: int, i: int, address: int|
            l < k && #[trigger] puts(entries, k, j, address) && #[trigger] puts(
                entries,
                l,
                i,
                address,
            ) ==> put_byte(entries, k, j) == put_byte(entries, l, i)
    }
}

/// Whether memory holds what the entries before `k` put there, and nothing else.
pub open spec fn holds_entries(
    memory: Map<u32, u8>,
    entries: Seq<Option<Record>>,
    k: int,
) -> bool {
    &&& forall|l: int, j: int, address: int|
        l < k && #[trigger] puts(entries, l, j, address) ==> 0 <= address <= u32::MAX
            && memory.contains_key(address as u32) && memory[address as u32] == put_byte(
            entries,
            l,
            j,
        )
    &&& forall|key: u32| #[trigger]
        memory.contains_key(key) ==> exists|l: int, j: int|
            l < k && #[trigger] puts(entries, l, j, key as int)
}

proof fn lemma_total(bytes: Seq<u8>)
    ensures
        total(bytes) == byte_sum(bytes),
    decreases bytes.len(),
{
    if bytes.len() == 1 {
        assert(bytes.drop_last() =~= Seq::<u8>::empty());
        assert(bytes.skip(1) =~= Seq::<u8>::empty());
        assert(bytes.last() == bytes[0]);
        reveal_with_fuel(total, 2);
        reveal_with_fuel(byte_sum, 2);
    } else if bytes.len() > 1 {
        lemma_total(bytes.skip(1));
        lemma_total(bytes.drop_last());
        lemma_total(bytes.skip(1).drop_last());
        assert(bytes.drop_last().skip(1) =~= bytes.skip(1).drop_last());
        assert(bytes.skip(1).last() == bytes.last());
        assert(bytes.drop_last()[0] == bytes[0]);
        assert(total(bytes.drop_last()) == bytes[0] + total(bytes.drop_last().skip(1)));
        assert(byte_sum(bytes.skip(1)) == byte_sum(bytes.skip(1).drop_last()) + bytes.last());
    }
}

proof fn lemma_pair_of(upper: char, lower: char, byte: u8)
    ensures
        number(seq![upper, lower], 16, u8::MAX as nat) == Ok::<nat, NumberError>(byte as nat)
            <==> is_pair_of(upper, lower, byte),
{
    let text = seq![upper, lower];
    assert('+' as int == 0x2B);
    law_numbers_are_read_as_their_numerals(text, 16, u8::MAX as nat, byte as nat);
    reveal_with_fuel(worth, 3);
    if is_pair_of(upper, lower, byte) {
        if upper == '+' && is_digit(lower, byte as int) {
            let values = seq![byte as int];
            assert(text.skip(1) =~= seq![lower]);
            assert(values.drop_last() =~= Seq::<int>::empty());
            assert(spells(text.skip(1), values, 16));
            assert(is_numeral(text, values, 16));
        } else {
            let values = seq![byte as int / 16, byte as int % 16];
            assert(values.drop_last() =~= seq![byte as int / 16]);
            assert(values.drop_last().drop_last() =~= Seq::<int>::empty());
            assert(spells(text, values, 16));
            assert(is_numeral(text, values, 16));
        }
        assert(denotes(text, 16, byte as int));
    }
    if denotes(text, 16, byte as int) {
        let values = choose|values: Seq<int>| #[trigger]
            is_numeral(text, values, 16) && worth(values, 16) == byte;
        if spells(text, values, 16) {
            assert(is_digit_below(text[0], values[0], 16));
            assert(is_digit_below(text[1], values[1], 16));
            assert(values.drop_last() =~= seq![values[0]]);
            assert(values.drop_last().drop_last() =~= Seq::<int>::empty());
            assert(byte == values[0] * 16 + values[1]);
        } else {
            assert(text.skip(1)[0] == lower);
            assert(is_digit_below(text.skip(1)[0], values[0], 16));
            assert(values.drop_last() =~= Seq::<int>::empty());
            assert(byte == values[0]);
        }
    }
}

/// A text is decoded to bytes exactly where it is made of their digits.
proof fn lemma_pairs(text: Seq<char>, bytes: Seq<u8>)
    ensures
        pair_bytes(text) == Ok::<Seq<u8>, DecodeError>(bytes) <==> are_pairs(text, bytes),
        are_pairs(text, bytes) ==> utf8_length(text) == text.len(),
    decreases text.len(),
{
    if text.len() == 0 {
        if are_pairs(text, bytes) {
            assert(bytes =~= Seq::<u8>::empty());
        }
    } else if text.len() >= 2 && bytes.len() >= 1 {
        let rest = text.skip(2);
        let more = bytes.skip(1);
        lemma_pairs(rest, more);
        assert(text.take(2) =~= seq![text[0], text[1]]);
        lemma_pair_of(text[0], text[1], bytes[0]);
        if are_pairs(text, bytes) {
            assert(is_pair_of(text[0], text[1], bytes[0]));
            assert forall|i: int| 0 <= i < more.len() implies is_pair_of(
                rest[2 * i],
                rest[2 * i + 1],
                #[trigger] more[i],
            ) by {
                assert(is_pair_of(text[2 * (i + 1)], text[2 * (i + 1) + 1], bytes[i + 1]));
            }
            assert(are_pairs(rest, more));
            assert(seq![bytes[0]] + more =~= bytes);
            lemma_ascii(text, bytes);
        }
        if pair_bytes(text) == Ok::<Seq<u8>, DecodeError>(bytes) {
            let value = number(text.take(2), 16, u8::MAX as nat)->Ok_0;
            let tail = pair_bytes(rest)->Ok_0;
            law_numbers_are_read_as_their_numerals(text.take(2), 16, u8::MAX as nat, value);
            assert(bytes == seq![value as u8] + tail);
            assert(bytes[0] == value as u8);
            assert(more =~= tail);
            assert forall|i: int| 0 <= i < bytes.len() implies is_pair_of(
                text[2 * i],
                text[2 * i + 1],
                #[trigger] bytes[i],
            ) by {
                if i > 0 {
                    assert(is_pair_of(rest[2 * (i - 1)], rest[2 * (i - 1) + 1], more[i - 1]));
                }
            }
        }
    }
}

proof fn lemma_ascii(text: Seq<char>, bytes: Seq<u8>)
    requires
        are_pairs(text, bytes),
    ensures
        forall|i: int| 0 <= i < text.len() ==> utf8_width(#[trigger] text[i]) == 1 && !is_space(
            text[i],
        ),
        utf8_length(text) == text.len(),
{
    assert forall|i: int| 0 <= i < text.len() implies utf8_width(#[trigger] text[i]) == 1
        && !is_space(text[i]) by {
        assert('+' as int == 0x2B);
        assert(is_pair_of(text[2 * (i / 2)], text[2 * (i / 2) + 1], bytes[i / 2]));
    }
    lemma_ascii_length(text);
}

proof fn lemma_ascii_length(text: Seq<char>)
    requires
        forall|i: int| 0 <= i < text.len() ==> utf8_width(#[trigger] text[i]) == 1,
    ensures
        utf8_length(text) == text.len(),
    decreases text.len(),
{
    if text.len() > 0 {
        lemma_ascii_length(text.drop_last());
    }
}

/// Hexadecimal is decoded to bytes exactly where it is made of their digits, two for each.
pub proof fn law_bytes_are_decoded_from_their_digits(text: Seq<char>, bytes: Seq<u8>)
    ensures
        hex_bytes(text) == Ok::<Seq<u8>, DecodeError>(bytes) <==> are_pairs(text, bytes),
{
    lemma_pairs(text, bytes);
}

/// A line that holds bytes does what the bytes do.
proof fn lemma_line(line: Seq<char>, raw: Seq<u8>, n: usize, base: u32, memory: Map<u32, u8>)
    requires
        holds_bytes(line, raw),
    ensures
        line_outcome(line, n, base, memory) == record_outcome(raw, n, base, memory),
{
    let (left, text, right) = choose|left: Seq<char>, text: Seq<char>, right: Seq<char>| #[trigger]
        is_line_of(line, left, text, right, raw);
    let body = seq![':'] + text;
    lemma_ascii(text, raw);
    assert(':' as int == 0x3A);
    assert(body[0] == ':');
    assert(text.len() > 0 ==> body.last() == text[text.len() - 1]);
    assert(text.len() == 0 ==> body.last() == ':');
    law_trimming_takes_off_white_space(left, body, right);
    assert(body.skip(1) =~= text);
    law_bytes_are_decoded_from_their_digits(text, raw);
}

proof fn lemma_blank_line(line: Seq<char>, n: usize, base: u32, memory: Map<u32, u8>)
    requires
        is_blank(line),
    ensures
        line_outcome(line, n, base, memory) == (LineOutcome::Continue { base, memory }),
{
    let nothing = Seq::<char>::empty();
    law_trimming_takes_off_white_space(line, nothing, nothing);
    assert(line + nothing + nothing =~= line);
}

/// What a record does, in the words of the record.
proof fn lemma_record(raw: Seq<u8>, record: Record, n: usize, base: u32, memory: Map<u32, u8>)
    requires
        are_bytes_of(raw, record),
    ensures
        record.kind == 0 ==> record_outcome(raw, n, base, memory) == (match place(
            memory,
            base + record.offset,
            record.payload,
        ) {
            Ok(placed) => LineOutcome::Continue { base, memory: placed },
            Err(error) => LineOutcome::Failed(HexError::Place(error)),
        }),
        record.kind == 1 ==> record_outcome(raw, n, base, memory) is EndOfFile,
        record.kind == 2 && record.payload.len() == 2 ==> record_outcome(raw, n, base, memory)
            == (LineOutcome::Continue {
            base: ((record.payload[0] * 0x100 + record.payload[1]) * 16) as u32,
            memory,
        }),
        record.kind == 4 && record.payload.len() == 2 ==> record_outcome(raw, n, base, memory)
            == (LineOutcome::Continue {
            base: ((record.payload[0] * 0x100 + record.payload[1]) * 65536) as u32,
            memory,
        }),
        record.kind == 3 || record.kind == 5 ==> record_outcome(raw, n, base, memory) == (
        LineOutcome::Continue { base, memory }),
        record.kind > 5 || (record.kind == 2 || record.kind == 4) && record.payload.len() != 2
            ==> record_outcome(raw, n, base, memory) is Failed,
{
    lemma_total(raw);
    assert(raw.subrange(4, 4 + raw[0]) =~= record.payload);
}

proof fn lemma_base(entries: Seq<Option<Record>>, k: int)
    requires
        0 <= k <= entries.len(),
        forall|l: int| 0 <= l < k ==> #[trigger] is_readable(entries, l),
        is_live(entries, k),
    ensures
        0 <= base_at(entries, k) <= 0xFFFF_0000,
    decreases k,
{
    if k > 0 {
        assert(is_readable(entries, k - 1));
        assert(is_live(entries, k - 1));
        lemma_base(entries, k - 1);
    }
}

/// What the entries from `k` on do to memory that holds those before.
proof fn lemma_reading(
    lines: Seq<Seq<char>>,
    entries: Seq<Option<Record>>,
    k: int,
    memory: Map<u32, u8>,
)
    requires
        are_entries(lines, entries),
        0 <= k <= entries.len(),
        is_live(entries, k),
        forall|l: int| 0 <= l < k ==> #[trigger] is_readable(entries, l),
        holds_entries(memory, entries, k),
    ensures
        match reading(lines.skip(k), base_at(entries, k) as u32, memory) {
            Reading::Failed => exists|l: int|
                0 <= l < entries.len() && !#[trigger] is_readable(entries, l),
            Reading::Going { memory: result, .. } => holds_entries(
                result,
                entries,
                entries.len() as int,
            ) && forall|l: int| 0 <= l < entries.len() ==> #[trigger] is_readable(entries, l),
            Reading::Ended { memory: result } => holds_entries(
                result,
                entries,
                entries.len() as int,
            ) && forall|l: int| 0 <= l < entries.len() ==> #[trigger] is_readable(entries, l),
        },
    decreases entries.len() - k,
{
    lemma_base(entries, k);
    let base = base_at(entries, k) as u32;
    if k < entries.len() {
        let line = lines[k];
        assert(lines.skip(k)[0] == line);
        assert(lines.skip(k).skip(1) =~= lines.skip(k + 1));
        match entries[k] {
            None => {
                assert(is_blank(line));
                lemma_blank_line(line, 0, base, memory);
                lemma_no_data(entries, k, memory);
                lemma_reading(lines, entries, k + 1, memory);
            },
            Some(record) => {
                assert(holds(line, record));
                let raw = choose|raw: Seq<u8>| #[trigger]
                    holds_bytes(line, raw) && are_bytes_of(raw, record);
                lemma_line(line, raw, 0, base, memory);
                lemma_record(raw, record, 0, base, memory);
                if record.kind == 0 {
                    lemma_data(entries, k, memory);
                    if let Ok(next) = place(memory, base + record.offset, record.payload) {
                        lemma_reading(lines, entries, k + 1, next);
                    }
                } else if record.kind == 1 {
                    lemma_no_data(entries, k, memory);
                    lemma_end(entries, k, memory);
                } else if record.kind > 5 || (record.kind == 2 || record.kind == 4)
                    && record.payload.len() != 2 {
                    assert(!is_readable(entries, k));
                } else {
                    lemma_no_data(entries, k, memory);
                    lemma_reading(lines, entries, k + 1, memory);
                }
            },
        }
    }
}

/// An entry without data changes nothing in memory.
proof fn lemma_no_data(entries: Seq<Option<Record>>, k: int, memory: Map<u32, u8>)
    requires
        0 <= k < entries.len(),
        holds_entries(memory, entries, k),
        entries[k] matches Some(record) ==> 1 <= record.kind <= 5 && (record.kind == 2
            || record.kind == 4 ==> record.payload.len() == 2),
    ensures
        holds_entries(memory, entries, k + 1),
        is_readable(entries, k),
        (entries[k] matches Some(record) ==> record.kind != 1) && is_live(entries, k) ==> is_live(
            entries,
            k + 1,
        ),
{
    assert forall|l: int, j: int, address: int|
        l < k + 1 && #[trigger] puts(entries, l, j, address) implies l < k by {}
    assert forall|key: u32| #[trigger] memory.contains_key(key) implies exists|l: int, j: int|
        l < k + 1 && #[trigger] puts(entries, l, j, key as int) by {
        let (l, j) = choose|l: int, j: int| l < k && #[trigger] puts(entries, l, j, key as int);
        assert(puts(entries, l, j, key as int));
    }
}

/// Nothing is read behind the end.
proof fn lemma_end(entries: Seq<Option<Record>>, k: int, memory: Map<u32, u8>)
    requires
        0 <= k < entries.len(),
        holds_entries(memory, entries, k + 1),
        entries[k] matches Some(record) && record.kind == 1,
        forall|l: int| 0 <= l < k ==> #[trigger] is_readable(entries, l),
        is_readable(entries, k),
    ensures
        holds_entries(memory, entries, entries.len() as int),
        forall|l: int| 0 <= l < entries.len() ==> #[trigger] is_readable(entries, l),
{
    assert forall|l: int| k < l implies !is_live(entries, l) by {
        assert(entries[k] is Some);
    }
    assert forall|key: u32| #[trigger] memory.contains_key(key) implies exists|l: int, j: int|
        l < entries.len() && #[trigger] puts(entries, l, j, key as int) by {
        let (l, j) = choose|l: int, j: int|
            l < k + 1 && #[trigger] puts(entries, l, j, key as int);
        assert(puts(entries, l, j, key as int));
    }
}

/// Data finds its place exactly where it can be read.
proof fn lemma_data(entries: Seq<Option<Record>>, k: int, memory: Map<u32, u8>)
    requires
        0 <= k < entries.len(),
        is_live(entries, k),
        holds_entries(memory, entries, k),
        0 <= base_at(entries, k) <= 0xFFFF_0000,
        entries[k] matches Some(record) && record.kind == 0 && record.offset >= 0,
    ensures
        ({
            let record = entries[k]->0;
            let result = place(memory, base_at(entries, k) + record.offset, record.payload);
            &&& result is Ok <==> is_readable(entries, k)
            &&& result is Ok ==> holds_entries(result->Ok_0, entries, k + 1)
            &&& is_live(entries, k + 1)
        }),
{
    let record = entries[k]->0;
    let bytes = record.payload;
    let address = base_at(entries, k) + record.offset;
    law_place_overlays(memory, address, bytes);
    if is_readable(entries, k) {
        if bytes.len() > 0 {
            assert(puts(entries, k, bytes.len() - 1, address + bytes.len() - 1));
        }
        assert forall|key: u32| #[trigger]
            memory.contains_key(key) && covers(address, bytes, key) implies memory[key]
            == bytes[key - address] by {
            let (l, j) = choose|l: int, j: int| l < k && #[trigger] puts(entries, l, j, key as int);
            assert(puts(entries, k, key - address, key as int));
            assert(put_byte(entries, k, key - address) == put_byte(entries, l, j));
        }
        assert(agrees(memory, address, bytes));
    }
    if let Ok(next) = place(memory, address, bytes) {
        assert forall|j: int, at: int| #[trigger] puts(entries, k, j, at) implies at <= u32::MAX
            && next.contains_key(at as u32) && next[at as u32] == put_byte(entries, k, j) by {
            lemma_overlaid_byte(memory, address, bytes, next, at as u32);
        }
        assert forall|l: int, j: int, at: int|
            l < k && #[trigger] puts(entries, l, j, at) implies next.contains_key(at as u32)
            && next[at as u32] == put_byte(entries, l, j) by {
            assert(memory.contains_key(at as u32));
        }
        assert forall|j: int, l: int, i: int, at: int|
            l < k && #[trigger] puts(entries, k, j, at) && #[trigger] puts(
                entries,
                l,
                i,
                at,
            ) implies put_byte(entries, k, j) == put_byte(entries, l, i) by {
            assert(next[at as u32] == put_byte(entries, k, j));
        }
        assert forall|key: u32| #[trigger] next.contains_key(key) implies exists|l: int, j: int|
            l < k + 1 && #[trigger] puts(entries, l, j, key as int) by {
            if covers(address, bytes, key) {
                assert(puts(entries, k, key - address, key as int));
            } else {
                assert(memory.contains_key(key));
                let (l, j) = choose|l: int, j: int|
                    l < k && #[trigger] puts(entries, l, j, key as int);
                assert(puts(entries, l, j, key as int));
            }
        }
    }
}

/// A file of records, with blank lines among them or not, is read exactly where each record before
/// the end can be: its kind is known, an upper address has two bytes, and data neither runs past
/// the last address nor differs from data before it. Memory then holds each byte of data at the
/// last upper address before it, its offset and its place in the record, added up, and nothing
/// else.
pub proof fn law_a_file_is_what_its_records_say(text: Seq<char>, entries: Seq<Option<Record>>)
    requires
        are_entries(lines(text), entries),
    ensures
        hex_memory(text) is Ok <==> forall|k: int|
            0 <= k < entries.len() ==> #[trigger] is_readable(entries, k),
        hex_memory(text) matches Ok(memory) ==> holds_entries(
            memory,
            entries,
            entries.len() as int,
        ),
{
    let empty = Map::<u32, u8>::empty();
    lemma_lines_memory(text, 1, 0, empty);
    assert(lines(text).skip(0) =~= lines(text));
    lemma_reading(lines(text), entries, 0, empty);
}

/// Nothing behind the record that ends a file counts, whatever it is: the file is what its records
/// up to that one say.
pub proof fn law_nothing_behind_the_end_counts(text: Seq<char>, entries: Seq<Option<Record>>)
    requires
        0 < entries.len() <= lines(text).len(),
        are_entries(lines(text).take(entries.len() as int), entries),
        entries.last() matches Some(record) && record.kind == 1,
    ensures
        hex_memory(text) is Ok <==> forall|k: int|
            0 <= k < entries.len() ==> #[trigger] is_readable(entries, k),
        hex_memory(text) matches Ok(memory) ==> holds_entries(
            memory,
            entries,
            entries.len() as int,
        ),
{
    let empty = Map::<u32, u8>::empty();
    let end = entries.len() - 1;
    let head = lines(text).take(end + 1);
    let rest = lines(text).skip(end + 1);
    let last = head[end];
    let record = entries[end]->0;
    assert(holds(last, record));
    let raw = choose|raw: Seq<u8>| #[trigger] holds_bytes(last, raw) && are_bytes_of(raw, record);
    lemma_reading_on(head.take(end), seq![last], 0, empty);
    assert(head.take(end) + seq![last] =~= head);
    if let Reading::Going { base, memory } = reading(head.take(end), 0, empty) {
        lemma_reading_one(last, base, memory);
        lemma_line(last, raw, 0, base, memory);
        lemma_record(raw, record, 0, base, memory);
    }
    lemma_reading_on(head, rest, 0, empty);
    assert(head + rest =~= lines(text));
    assert(head.skip(0) =~= head);
    lemma_reading(head, entries, 0, empty);
    lemma_lines_memory(text, 1, 0, empty);
}

/// The address that a record with an upper address sets, whatever stood before it.
pub proof fn law_an_upper_address_replaces_the_one_before(
    raw: Seq<u8>,
    record: Record,
    line: usize,
    base: u32,
    memory: Map<u32, u8>,
)
    requires
        are_bytes_of(raw, record),
        record.payload.len() == 2,
        record.kind == 2 || record.kind == 4,
    ensures
        record_outcome(raw, line, base, memory) == (LineOutcome::Continue {
            base: (if record.kind == 2 {
                record.payload[0] * 0x1000 + record.payload[1] * 0x10
            } else {
                record.payload[0] * 0x100_0000 + record.payload[1] * 0x1_0000
            }) as u32,
            memory,
        }),
{
    lemma_record(raw, record, line, base, memory);
}

/// A line that is neither blank nor a record that can be read is refused for the first thing that
/// is wrong with it.
pub proof fn law_a_wrong_line_is_refused(
    left: Seq<char>,
    body: Seq<char>,
    right: Seq<char>,
    raw: Seq<u8>,
    line: usize,
    base: u32,
    memory: Map<u32, u8>,
)
    requires
        is_blank(left),
        is_blank(right),
        body.len() > 0,
        !is_space(body[0]),
        !is_space(body.last()),
    ensures
        ({
            let outcome = line_outcome(left + body + right, line, base, memory);
            &&& body[0] != ':' ==> outcome == LineOutcome::Failed(HexError::InvalidRecord { line })
            &&& body[0] == ':' && (forall|bytes: Seq<u8>|
                !(#[trigger] are_pairs(body.skip(1), bytes))) ==> (outcome
                matches LineOutcome::Failed(HexError::InvalidHex { line: number, .. }) && number
                == line)
            &&& body[0] == ':' && are_pairs(body.skip(1), raw) ==> {
                &&& raw.len() < 5 ==> outcome == LineOutcome::Failed(
                    HexError::RecordTooShort { line },
                )
                &&& raw.len() >= 5 && raw.len() != raw[0] + 5 ==> outcome == LineOutcome::Failed(
                    HexError::LengthMismatch { line },
                )
                &&& raw.len() >= 5 && raw.len() == raw[0] + 5 && total(raw) % 256 != 0 ==> outcome
                    == LineOutcome::Failed(HexError::ChecksumFailed { line })
                &&& raw.len() >= 5 && raw.len() == raw[0] + 5 && total(raw) % 256 == 0 ==> {
                    &&& raw[3] == 0 ==> (place(
                        memory,
                        base + raw[1] * 0x100 + raw[2],
                        raw.subrange(4, raw.len() - 1),
                    ) matches Err(error) ==> outcome == LineOutcome::Failed(HexError::Place(error)))
                    &&& raw[3] == 2 && raw[0] != 2 ==> outcome == LineOutcome::Failed(
                        HexError::InvalidExtendedSegment,
                    )
                    &&& raw[3] == 4 && raw[0] != 2 ==> outcome == LineOutcome::Failed(
                        HexError::InvalidExtendedLinear,
                    )
                    &&& raw[3] > 5 ==> outcome == LineOutcome::Failed(
                        HexError::UnsupportedRecordType { record_type: raw[3] },
                    )
                }
            }
        }),
{
    law_trimming_takes_off_white_space(left, body, right);
    lemma_total(raw);
    law_bytes_are_decoded_from_their_digits(body.skip(1), raw);
    if let Ok(bytes) = hex_bytes(body.skip(1)) {
        law_bytes_are_decoded_from_their_digits(body.skip(1), bytes);
    }
}

/// Whether a character has a code of seven bits.
pub open spec fn is_ascii(c: char) -> bool {
    0 <= (c as int) < 0x80
}

/// Digits that are odd in number are told apart from characters that are no digits.
pub proof fn law_an_odd_number_of_digits_is_told_apart(text: Seq<char>)
    requires
        forall|i: int| 0 <= i < text.len() ==> is_ascii(#[trigger] text[i]),
    ensures
        hex_bytes(text) == Err::<Seq<u8>, DecodeError>(DecodeError::OddLength) <==> text.len() % 2
            == 1,
        text.len() % 2 == 0 && (forall|bytes: Seq<u8>| !(#[trigger] are_pairs(text, bytes)))
            ==> hex_bytes(text) == Err::<Seq<u8>, DecodeError>(DecodeError::InvalidDigit),
{
    assert forall|i: int| 0 <= i < text.len() implies utf8_width(#[trigger] text[i]) == 1 by {
        assert(is_ascii(text[i]));
    }
    lemma_ascii_length(text);
    lemma_ascii_errors(text);
    if let Ok(bytes) = hex_bytes(text) {
        law_bytes_are_decoded_from_their_digits(text, bytes);
    }
}

proof fn lemma_ascii_errors(text: Seq<char>)
    requires
        forall|i: int| 0 <= i < text.len() ==> utf8_width(#[trigger] text[i]) == 1,
    ensures
        pair_bytes(text) matches Err(error) ==> error != DecodeError::OddLength,
        text.len() % 2 == 0 ==> (pair_bytes(text) matches Err(error) ==> error
            == DecodeError::InvalidDigit),
    decreases text.len(),
{
    if text.len() >= 2 {
        assert(utf8_width(text[0]) == 1 && utf8_width(text[1]) == 1);
        assert forall|i: int| 0 <= i < text.skip(2).len() implies utf8_width(
            #[trigger] text.skip(2)[i],
        ) == 1 by {
            assert(text.skip(2)[i] == text[i + 2]);
        }
        lemma_ascii_errors(text.skip(2));
    } else if text.len() == 1 {
        assert(utf8_width(text[0]) == 1);
    }
}

proof fn lemma_numbered(
    text: Seq<char>,
    number: nat,
    k: int,
    base: u32,
    memory: Map<u32, u8>,
    next_base: u32,
    next_memory: Map<u32, u8>,
)
    requires
        0 <= k < lines(text).len(),
        reading(lines(text).take(k), base, memory) == (Reading::Going {
            base: next_base,
            memory: next_memory,
        }),
    ensures
        line_outcome(lines(text)[k], (number + k) as usize, next_base, next_memory)
            matches LineOutcome::Failed(error) ==> (lines_memory(text, number, base, memory)
            matches Err(found) && found == error),
    decreases k,
{
    let first = text.take(line_length(text) as int);
    lemma_line_length(text);
    assert(lines(text)[0] == first);
    assert(lines(text).skip(1) =~= lines(after_line(text)));
    if k == 0 {
        assert(lines(text).take(0) =~= Seq::<Seq<char>>::empty());
    } else {
        let head = lines(text).take(k);
        assert(head[0] == first);
        assert(head.skip(1) =~= lines(after_line(text)).take(k - 1));
        lemma_line_number(first, 0, number as usize, base, memory);
        if let LineOutcome::Continue { base: b, memory: m } = line_outcome(first, 0, base, memory) {
            lemma_numbered(after_line(text), number + 1, k - 1, b, m, next_base, next_memory);
            assert(lines(after_line(text))[k - 1] == lines(text)[k]);
        }
    }
}

/// The first line that is wrong, behind entries that can be read and before the end, decides the
/// error, and its number is the number of lines up to it.
pub proof fn law_the_first_wrong_line_decides(
    text: Seq<char>,
    entries: Seq<Option<Record>>,
    line: Seq<char>,
)
    requires
        entries.len() < lines(text).len(),
        are_entries(lines(text).take(entries.len() as int), entries),
        is_live(entries, entries.len() as int),
        forall|k: int| 0 <= k < entries.len() ==> #[trigger] is_readable(entries, k),
        line == lines(text)[entries.len() as int],
    ensures
        exists|memory: Map<u32, u8>|
            {
                &&& #[trigger] holds_entries(memory, entries, entries.len() as int)
                &&& line_outcome(
                    line,
                    (entries.len() + 1) as usize,
                    base_at(entries, entries.len() as int) as u32,
                    memory,
                ) matches LineOutcome::Failed(error) ==> hex_memory(text) == Err::<
                    Map<u32, u8>,
                    HexError,
                >(error)
            },
{
    let k = entries.len() as int;
    let head = lines(text).take(k);
    let empty = Map::<u32, u8>::empty();
    assert(head.skip(0) =~= head);
    lemma_reading(head, entries, 0, empty);
    lemma_goes_on(head, entries, 0, empty);
    let memory = reading(head, 0, empty)->Going_memory;
    lemma_numbered(text, 1, k, 0, empty, base_at(entries, k) as u32, memory);
    assert(holds_entries(memory, entries, k));
}

/// Entries without an end leave the reading going, with the base of the last of them.
proof fn lemma_goes_on(
    lines: Seq<Seq<char>>,
    entries: Seq<Option<Record>>,
    k: int,
    memory: Map<u32, u8>,
)
    requires
        are_entries(lines, entries),
        0 <= k <= entries.len(),
        is_live(entries, entries.len() as int),
        forall|l: int| 0 <= l < entries.len() ==> #[trigger] is_readable(entries, l),
        holds_entries(memory, entries, k),
    ensures
        reading(lines.skip(k), base_at(entries, k) as u32, memory) matches Reading::Going {
            base,
            ..
        } && base == base_at(entries, entries.len() as int) as u32,
    decreases entries.len() - k,
{
    assert(is_live(entries, k));
    lemma_base(entries, k);
    let base = base_at(entries, k) as u32;
    if k < entries.len() {
        let line = lines[k];
        assert(lines.skip(k)[0] == line);
        assert(lines.skip(k).skip(1) =~= lines.skip(k + 1));
        assert(is_readable(entries, k));
        match entries[k] {
            None => {
                assert(is_blank(line));
                lemma_blank_line(line, 0, base, memory);
                lemma_no_data(entries, k, memory);
                lemma_goes_on(lines, entries, k + 1, memory);
            },
            Some(record) => {
                assert(holds(line, record));
                let raw = choose|raw: Seq<u8>| #[trigger]
                    holds_bytes(line, raw) && are_bytes_of(raw, record);
                lemma_line(line, raw, 0, base, memory);
                lemma_record(raw, record, 0, base, memory);
                if record.kind == 0 {
                    lemma_data(entries, k, memory);
                    let next = place(memory, base + record.offset, record.payload)->Ok_0;
                    lemma_goes_on(lines, entries, k + 1, next);
                } else {
                    lemma_no_data(entries, k, memory);
                    lemma_goes_on(lines, entries, k + 1, memory);
                }
            },
        }
    }
}

/// How many bytes a character takes in UTF-8.
pub open spec fn breadth(c: char) -> int {
    let code = c as int;
    if code < 0x80 {
        1
    } else if code < 0x800 {
        2
    } else if code < 0x1_0000 {
        3
    } else {
        4
    }
}

/// How many bytes a text takes in UTF-8.
pub open spec fn breadths(text: Seq<char>) -> int
    decreases text.len(),
{
    if text.len() == 0 {
        0
    } else {
        breadth(text[0]) + breadths(text.skip(1))
    }
}

proof fn lemma_breadth(c: char)
    ensures
        breadth(c) == utf8_width(c),
{
}

proof fn lemma_breadths(text: Seq<char>)
    ensures
        breadths(text) == utf8_length(text),
    decreases text.len(),
{
    if text.len() == 1 {
        lemma_breadth(text[0]);
        assert(text.drop_last() =~= Seq::<char>::empty());
        assert(text.skip(1) =~= Seq::<char>::empty());
        reveal_with_fuel(breadths, 2);
        reveal_with_fuel(utf8_length, 2);
    } else if text.len() > 1 {
        lemma_breadths(text.skip(1));
        lemma_breadths(text.drop_last());
        lemma_breadths(text.skip(1).drop_last());
        assert(text.drop_last().skip(1) =~= text.skip(1).drop_last());
        assert(text.skip(1).last() == text.last());
        assert(text.drop_last()[0] == text[0]);
        assert(breadths(text.drop_last()) == breadth(text[0]) + breadths(
            text.drop_last().skip(1),
        ));
        assert(utf8_length(text.skip(1)) == utf8_length(text.skip(1).drop_last()) + utf8_width(
            text.last(),
        ));
    }
}

proof fn lemma_pairs_then(head: Seq<char>, bytes: Seq<u8>, tail: Seq<char>)
    requires
        are_pairs(head, bytes),
        pair_bytes(tail) is Err,
    ensures
        pair_bytes(head + tail) == pair_bytes(tail),
    decreases bytes.len(),
{
    let text = head + tail;
    if bytes.len() == 0 {
        assert(text =~= tail);
    } else {
        let rest = head.skip(2);
        let more = bytes.skip(1);
        lemma_ascii(head, bytes);
        assert(text[0] == head[0] && text[1] == head[1]);
        assert(text.take(2) =~= seq![head[0], head[1]]);
        assert(text.skip(2) =~= rest + tail);
        assert(is_pair_of(head[2 * 0int], head[2 * 0int + 1], bytes[0]));
        lemma_pair_of(head[0], head[1], bytes[0]);
        assert forall|i: int| 0 <= i < more.len() implies is_pair_of(
            rest[2 * i],
            rest[2 * i + 1],
            #[trigger] more[i],
        ) by {
            assert(is_pair_of(head[2 * (i + 1)], head[2 * (i + 1) + 1], bytes[i + 1]));
        }
        lemma_pairs_then(rest, more, tail);
    }
}

/// A text that takes an odd number of bytes is told apart. In any other, what comes first behind
/// good pairs decides: two bytes that are no numeral, or a character that such two bytes split.
pub proof fn law_the_first_wrong_pair_decides(head: Seq<char>, bytes: Seq<u8>, tail: Seq<char>)
    requires
        are_pairs(head, bytes),
        tail.len() > 0,
    ensures
        ({
            let result = hex_bytes(head + tail);
            let invalid = Err::<Seq<u8>, DecodeError>(DecodeError::InvalidDigit);
            let split = Err::<Seq<u8>, DecodeError>(DecodeError::SplitCharacter);
            &&& result == Err::<Seq<u8>, DecodeError>(DecodeError::OddLength) <==> breadths(
                head + tail,
            ) % 2 == 1
            &&& breadths(head + tail) % 2 == 0 ==> {
                &&& breadth(tail[0]) == 2 ==> result == invalid
                &&& breadth(tail[0]) > 2 ==> result == split
                &&& breadth(tail[0]) == 1 && tail.len() > 1 && breadth(tail[1]) > 1 ==> result
                    == split
                &&& breadth(tail[0]) == 1 && tail.len() > 1 && breadth(tail[1]) == 1 && (forall|
                    byte: u8,
                | !(#[trigger] is_pair_of(tail[0], tail[1], byte))) ==> result == invalid
            }
        }),
{
    lemma_breadths(head + tail);
    lemma_not_odd(head + tail);
    lemma_breadth(tail[0]);
    if tail.len() > 1 {
        lemma_breadth(tail[1]);
        assert(tail.take(2) =~= seq![tail[0], tail[1]]);
        if let Ok(value) = number(tail.take(2), 16, u8::MAX as nat) {
            law_numbers_are_read_as_their_numerals(tail.take(2), 16, u8::MAX as nat, value);
            lemma_pair_of(tail[0], tail[1], value as u8);
        }
    }
    if pair_bytes(tail) is Err {
        lemma_pairs_then(head, bytes, tail);
    }
}

proof fn lemma_not_odd(text: Seq<char>)
    ensures
        pair_bytes(text) != Err::<Seq<u8>, DecodeError>(DecodeError::OddLength),
    decreases text.len(),
{
    if text.len() >= 2 {
        lemma_not_odd(text.skip(2));
    }
}

} // verus!
