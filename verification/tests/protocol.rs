use ajax::protocol::{
    baud_rate_code, UnsupportedBaudRate, ACK, INACTIVE_APPLICATION_ADDRESS,
    LOGICAL_APPLICATION_ADDRESS, MAXIMUM_IMAGE_SIZE, NACK,
};

#[test]
fn baud_rates_have_their_codes() {
    assert_eq!(baud_rate_code(125_000), Ok(0x00));
    assert_eq!(baud_rate_code(250_000), Ok(0x01));
    assert_eq!(baud_rate_code(500_000), Ok(0x02));
    assert_eq!(baud_rate_code(1_000_000), Ok(0x03));
}

#[test]
fn other_baud_rates_are_refused() {
    assert_eq!(baud_rate_code(0), Err(UnsupportedBaudRate { bit_rate: 0 }));
    assert_eq!(baud_rate_code(800_000), Err(UnsupportedBaudRate { bit_rate: 800_000 }));
    assert_eq!(baud_rate_code(u32::MAX), Err(UnsupportedBaudRate { bit_rate: u32::MAX }));
}

#[test]
fn banks_and_answers_have_their_values() {
    assert_eq!(LOGICAL_APPLICATION_ADDRESS, 0x0800_8000);
    assert_eq!(INACTIVE_APPLICATION_ADDRESS, 0x0810_8000);
    assert_eq!(MAXIMUM_IMAGE_SIZE, 0xF_8000);
    assert_eq!((ACK, NACK), (0x5A, 0xA5));
}
