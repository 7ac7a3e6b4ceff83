use ajax::text::NumberError;
use ajax::types::{parse_u32, BootInfo, EcuDefinition, PayloadError};

fn ecu(boot_request: &str) -> EcuDefinition {
    EcuDefinition {
        name: "BMS".to_string(),
        label: "Battery".to_string(),
        request_id: "0x7E0".to_string(),
        response_id: " 0X7e8 ".to_string(),
        write_data_id: "2017".to_string(),
        application_boot_request_id: "zero".to_string(),
        application_boot_request_data: boot_request.to_string(),
    }
}

#[test]
fn identifiers_are_hexadecimal_or_decimal() {
    assert_eq!(parse_u32("0x7E0"), Ok(0x7E0));
    assert_eq!(parse_u32("0X7e8"), Ok(0x7E8));
    assert_eq!(parse_u32("2017"), Ok(2017));
    assert_eq!(parse_u32("+5"), Ok(5));
    assert_eq!(parse_u32("0x+F"), Ok(15));
    assert_eq!(parse_u32("007"), Ok(7));
}

#[test]
fn identifiers_may_have_white_space_around_them() {
    assert_eq!(parse_u32("  0x10\t\r\n"), Ok(16));
    assert_eq!(parse_u32("\u{3000}16\u{A0}"), Ok(16));
    assert_eq!(parse_u32("1 6"), Err(NumberError::InvalidDigit));
    assert_eq!(parse_u32("0x 10"), Err(NumberError::InvalidDigit));
}

#[test]
fn identifiers_have_thirty_two_bits() {
    assert_eq!(parse_u32("0xFFFFFFFF"), Ok(u32::MAX));
    assert_eq!(parse_u32("4294967295"), Ok(u32::MAX));
    assert_eq!(parse_u32("4294967296"), Err(NumberError::TooLarge));
    assert_eq!(parse_u32("0x100000000"), Err(NumberError::TooLarge));
}

#[test]
fn what_is_no_number_is_no_identifier() {
    assert_eq!(parse_u32(""), Err(NumberError::Empty));
    assert_eq!(parse_u32("   "), Err(NumberError::Empty));
    assert_eq!(parse_u32("0x"), Err(NumberError::Empty));
    assert_eq!(parse_u32("7E0"), Err(NumberError::InvalidDigit));
    assert_eq!(parse_u32("-1"), Err(NumberError::InvalidDigit));
    assert_eq!(parse_u32("+"), Err(NumberError::InvalidDigit));
    assert_eq!(parse_u32("99999999999x"), Err(NumberError::TooLarge));
    assert_eq!(parse_u32("x99999999999"), Err(NumberError::InvalidDigit));
}

#[test]
fn numbers_are_read_back_from_their_digits() {
    for value in [0u32, 1, 9, 10, 15, 16, 0x7E8, 123_456_789, u32::MAX] {
        assert_eq!(parse_u32(&format!("{value}")), Ok(value));
        assert_eq!(parse_u32(&format!("0x{value:X}")), Ok(value));
        assert_eq!(parse_u32(&format!(" 0x{value:x} ")), Ok(value));
        assert_eq!(parse_u32(&format!("0X{value:X}")), Ok(value));
        assert_eq!(parse_u32(&format!("0X{value:x}")), Ok(value));
    }
}

#[test]
fn an_ecu_gives_each_of_its_identifiers() {
    let ecu = ecu("01");
    assert_eq!(ecu.request_can_id(), Ok(0x7E0));
    assert_eq!(ecu.response_can_id(), Ok(0x7E8));
    assert_eq!(ecu.write_data_can_id(), Ok(2017));
    assert_eq!(ecu.boot_request_can_id(), Err(NumberError::InvalidDigit));
}

#[test]
fn a_boot_request_is_one_to_eight_bytes() {
    assert_eq!(ecu("0xDE ad  be\tEF").boot_request_payload(), Ok(vec![0xDE, 0xAD, 0xBE, 0xEF]));
    assert_eq!(ecu("7").boot_request_payload(), Ok(vec![7]));
    assert_eq!(ecu(" 1 2 3 4 5 6 7 8 ").boot_request_payload(), Ok(vec![1, 2, 3, 4, 5, 6, 7, 8]));
    assert_eq!(ecu("").boot_request_payload(), Err(PayloadError::Length));
    assert_eq!(ecu(" \n ").boot_request_payload(), Err(PayloadError::Length));
    assert_eq!(ecu("1 2 3 4 5 6 7 8 9").boot_request_payload(), Err(PayloadError::Length));
}

#[test]
fn every_lower_case_prefix_of_a_boot_request_byte_is_dropped() {
    assert_eq!(ecu("0x0x12").boot_request_payload(), Ok(vec![0x12]));
    assert_eq!(
        ecu("0X12").boot_request_payload(),
        Err(PayloadError::Number(NumberError::InvalidDigit))
    );
}

#[test]
fn a_boot_request_byte_that_is_none_decides_the_error() {
    assert_eq!(
        ecu("1 100 xyz").boot_request_payload(),
        Err(PayloadError::Number(NumberError::TooLarge))
    );
    assert_eq!(
        ecu("1 xyz 100").boot_request_payload(),
        Err(PayloadError::Number(NumberError::InvalidDigit))
    );
    assert_eq!(ecu("0x").boot_request_payload(), Err(PayloadError::Number(NumberError::Empty)));
    assert_eq!(
        ecu("1 2 3 4 5 6 7 8 9 g").boot_request_payload(),
        Err(PayloadError::Number(NumberError::InvalidDigit))
    );
}

#[test]
fn the_version_byte_has_two_halves() {
    let info = BootInfo { version: 0x23, bank_swap_enabled: true };
    assert_eq!((info.major(), info.minor()), (2, 3));
    let info = BootInfo { version: 0xFF, bank_swap_enabled: false };
    assert_eq!((info.major(), info.minor()), (15, 15));
}

#[test]
fn a_cloned_ecu_is_the_same_ecu() {
    let ecu = ecu("01 02");
    let copy = ecu.clone();
    assert_eq!(copy.name, "BMS");
    assert_eq!(copy.label, "Battery");
    assert_eq!(copy.request_can_id(), ecu.request_can_id());
    assert_eq!(copy.boot_request_payload(), ecu.boot_request_payload());
}
