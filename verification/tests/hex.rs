use ajax::hex::{decode_hex, load_hex, DecodeError, HexError};
use ajax::memory::PlaceError;
use std::collections::BTreeMap;

/// A record with its length, and its checksum behind it.
fn record(offset: u16, record_type: u8, payload: &[u8]) -> String {
    let mut raw: Vec<u8> = vec![payload.len() as u8, (offset >> 8) as u8, offset as u8, record_type];
    raw.extend_from_slice(payload);
    let sum: u8 = raw.iter().fold(0u8, |sum, byte| sum.wrapping_add(*byte));
    raw.push(0u8.wrapping_sub(sum));
    let digits: Vec<String> = raw.iter().map(|byte| format!("{byte:02X}")).collect();
    format!(":{}", digits.concat())
}

fn memory(parts: &[(u32, &[u8])]) -> BTreeMap<u32, u8> {
    let mut memory: BTreeMap<u32, u8> = BTreeMap::new();
    for (address, bytes) in parts {
        for (index, byte) in bytes.iter().enumerate() {
            memory.insert(*address + index as u32, *byte);
        }
    }
    memory
}

#[test]
fn hexadecimal_is_decoded_in_pairs() {
    assert_eq!(decode_hex(""), Ok(vec![]));
    assert_eq!(decode_hex("00fFA5"), Ok(vec![0x00, 0xFF, 0xA5]));
    assert_eq!(decode_hex("+F"), Ok(vec![0x0F]));
}

#[test]
fn encoded_bytes_are_decoded_again() {
    let bytes: Vec<u8> = (0..=255).collect();
    let digits: Vec<String> = bytes.iter().map(|byte| format!("{byte:02X}")).collect();
    assert_eq!(decode_hex(&digits.concat()), Ok(bytes));
}

#[test]
fn an_odd_number_of_digits_is_refused() {
    assert_eq!(decode_hex("0"), Err(DecodeError::OddLength));
    assert_eq!(decode_hex("0x1"), Err(DecodeError::OddLength));
}

#[test]
fn a_pair_that_is_no_byte_is_refused() {
    assert_eq!(decode_hex("0G"), Err(DecodeError::InvalidDigit));
    assert_eq!(decode_hex("00-1"), Err(DecodeError::InvalidDigit));
    assert_eq!(decode_hex("00é"), Err(DecodeError::InvalidDigit));
}

#[test]
fn a_pair_inside_a_character_is_told_apart() {
    assert_eq!(decode_hex("€0"), Err(DecodeError::SplitCharacter));
    assert_eq!(decode_hex("0é0"), Err(DecodeError::SplitCharacter));
    assert_eq!(decode_hex("0G€0"), Err(DecodeError::InvalidDigit));
}

#[test]
fn a_file_gives_the_bytes_of_its_data_records() {
    let text = format!(
        "{}\r\n\n  {}  \n{}\n{}\nthis is never read\n",
        record(0, 4, &[0x08, 0x00]),
        record(0x8000, 0, &[1, 2, 3]),
        record(0x8003, 0, &[4]),
        record(0, 1, &[]),
    );
    assert_eq!(load_hex(&text), Ok(memory(&[(0x0800_8000, &[1, 2, 3, 4])])));
}

#[test]
fn a_known_record_is_read() {
    let text = ":10010000214601360121470136007EFE09D2190140\n:00000001FF\n";
    let bytes: [u8; 16] = [
        0x21, 0x46, 0x01, 0x36, 0x01, 0x21, 0x47, 0x01, 0x36, 0x00, 0x7E, 0xFE, 0x09, 0xD2, 0x19,
        0x01,
    ];
    assert_eq!(load_hex(text), Ok(memory(&[(0x0100, &bytes)])));
}

#[test]
fn an_address_base_holds_until_the_next_one() {
    let text = format!(
        "{}\n{}\n{}\n{}\n{}\n{}",
        record(5, 0, &[1]),
        record(0, 2, &[0x12, 0x34]),
        record(5, 0, &[2]),
        record(0, 4, &[0xFF, 0xFF]),
        record(0xFFFF, 0, &[3]),
        record(0, 0, &[4]),
    );
    assert_eq!(
        load_hex(&text),
        Ok(memory(&[(5, &[1]), (0x1_2345, &[2]), (0xFFFF_FFFF, &[3]), (0xFFFF_0000, &[4])]))
    );
}

#[test]
fn start_addresses_are_passed_over() {
    let text = format!("{}\n{}\n", record(0, 3, &[0, 0, 0, 0]), record(0, 5, &[8, 0, 0x80, 1]));
    assert_eq!(load_hex(&text), Ok(BTreeMap::new()));
}

#[test]
fn an_empty_file_gives_no_bytes() {
    assert_eq!(load_hex(""), Ok(BTreeMap::new()));
    assert_eq!(load_hex("\n \r\n\t\n"), Ok(BTreeMap::new()));
}

#[test]
fn a_line_without_a_colon_is_refused() {
    let text = format!("{}\n\n00000001FF", record(0, 0, &[1]));
    assert_eq!(load_hex(&text), Err(HexError::InvalidRecord { line: 3 }));
}

#[test]
fn a_record_that_is_no_hexadecimal_is_refused() {
    assert_eq!(
        load_hex(":0"),
        Err(HexError::InvalidHex { line: 1, cause: DecodeError::OddLength })
    );
    assert_eq!(
        load_hex("\n:0000zz00"),
        Err(HexError::InvalidHex { line: 2, cause: DecodeError::InvalidDigit })
    );
    assert_eq!(
        load_hex(":€0"),
        Err(HexError::InvalidHex { line: 1, cause: DecodeError::SplitCharacter })
    );
}

#[test]
fn a_record_has_to_have_its_length() {
    assert_eq!(load_hex(":"), Err(HexError::RecordTooShort { line: 1 }));
    assert_eq!(load_hex(":00000001"), Err(HexError::RecordTooShort { line: 1 }));
    assert_eq!(load_hex(":01000001FF"), Err(HexError::LengthMismatch { line: 1 }));
    assert_eq!(load_hex(":0000000001FE"), Err(HexError::LengthMismatch { line: 1 }));
}

#[test]
fn a_record_has_to_have_its_checksum() {
    assert_eq!(load_hex(":00000001FE"), Err(HexError::ChecksumFailed { line: 1 }));
}

#[test]
fn any_changed_byte_of_a_record_is_noticed() {
    let good = record(0x1234, 0, &[9, 8, 7]);
    let raw = decode_hex(&good[1..]).unwrap();
    for position in 0..raw.len() {
        let mut changed: Vec<u8> = raw.clone();
        changed[position] = changed[position].wrapping_add(1);
        let digits: Vec<String> = changed.iter().map(|byte| format!("{byte:02x}")).collect();
        let expected = if position == 0 {
            HexError::LengthMismatch { line: 1 }
        } else {
            HexError::ChecksumFailed { line: 1 }
        };
        assert_eq!(load_hex(&format!(":{}", digits.concat())), Err(expected));
    }
}

#[test]
fn extended_addresses_have_two_bytes() {
    assert_eq!(load_hex(&record(0, 2, &[1])), Err(HexError::InvalidExtendedSegment));
    assert_eq!(load_hex(&record(0, 4, &[1, 2, 3])), Err(HexError::InvalidExtendedLinear));
}

#[test]
fn other_record_types_are_refused() {
    assert_eq!(
        load_hex(&record(0, 6, &[])),
        Err(HexError::UnsupportedRecordType { record_type: 6 })
    );
}

#[test]
fn records_that_disagree_are_refused() {
    let text = format!("{}\n{}\n", record(4, 0, &[1, 2]), record(5, 0, &[3]));
    assert_eq!(load_hex(&text), Err(HexError::Place(PlaceError::Conflict { address: 5 })));
}

#[test]
fn a_record_that_runs_past_the_last_address_is_told_apart() {
    let text = format!("{}\n{}\n", record(0, 4, &[0xFF, 0xFF]), record(0xFFFF, 0, &[1, 2]));
    assert_eq!(load_hex(&text), Err(HexError::Place(PlaceError::AddressOverflow)));
}

#[test]
fn nothing_counts_behind_the_end_record() {
    let end = record(0, 1, &[]);
    let text = format!("{}\n{end}\n{}\n", record(0, 0, &[1]), record(0, 0, &[2]));
    assert_eq!(load_hex(&text), Ok(memory(&[(0, &[1])])));
}

#[test]
fn changes_that_do_not_count_leave_the_memory_as_it_is() {
    let base = record(0, 4, &[0x08, 0x00]);
    let first = record(0x8000, 0, &[0xAB, 0xCD]);
    let second = record(0x8002, 0, &[0xEF]);
    let end = record(0, 1, &[]);
    let plain = load_hex(&format!("{base}\n{first}\n{second}\n{end}\n"));
    assert_eq!(plain, Ok(memory(&[(0x0800_8000, &[0xAB, 0xCD, 0xEF])])));

    let blank = format!("\n{base}\n \t\r\n{first}\n\n{second}\n{end}");
    assert_eq!(load_hex(&blank), plain);
    let spaced = format!("  {base}\r\n\t{first} \r\n{second}\u{A0}\n {end} ");
    assert_eq!(load_hex(&spaced), plain);
    let lower = format!("{base}\n{}\n{}\n{end}\n", first.to_lowercase(), second.to_lowercase());
    assert_ne!(lower, format!("{base}\n{first}\n{second}\n{end}\n"));
    assert_eq!(load_hex(&lower), plain);
    let start = record(0, 5, &[8, 0, 0x80, 1]);
    let segment = record(0, 3, &[0, 0, 0, 0]);
    let started = format!("{start}\n{base}\n{segment}\n{first}\n{second}\n{start}\n{end}\n");
    assert_eq!(load_hex(&started), plain);
    let repeated = format!("{base}\n{base}\n{first}\n{first}\n{second}\n{second}\n{end}\n{end}\n");
    assert_eq!(load_hex(&repeated), plain);
    let swapped = format!("{base}\n{second}\n{first}\n{end}\n");
    assert_eq!(load_hex(&swapped), plain);
    let all = format!(
        "\r\n{base}\n{start}\n  {}\n{second}\r\n\n{}\t\n{end}",
        second.to_lowercase(),
        first.to_lowercase(),
    );
    assert_eq!(load_hex(&all), plain);
}

#[test]
fn changes_that_do_not_count_leave_an_error_an_error() {
    let first = record(4, 0, &[1, 2]);
    let second = record(5, 0, &[3]);
    assert!(load_hex(&format!("{first}\n{second}\n")).is_err());
    assert!(load_hex(&format!("{second}\n{first}\n")).is_err());
    assert!(load_hex(&format!("\n{first}\n{first}\n  {second}")).is_err());
}

#[test]
fn a_base_that_changes_places_with_data_counts() {
    let base = record(0, 4, &[0x08, 0x00]);
    let data = record(0x8000, 0, &[1]);
    assert_ne!(load_hex(&format!("{base}\n{data}")), load_hex(&format!("{data}\n{base}")));
}
