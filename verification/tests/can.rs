use ajax::can::{encode_frame, SendError, MAXIMUM_IDENTIFIER};
use socketcan::{EmbeddedFrame, Frame};

#[test]
fn a_standard_frame_carries_its_identifier_and_payload() {
    let frame = encode_frame(0x7E0, &[0xA1, 0x02, 0x03]).unwrap();
    assert_eq!(frame.raw_id(), 0x7E0);
    assert_eq!(frame.data(), &[0xA1, 0x02, 0x03]);
    assert!(!frame.is_extended());
    assert!(!frame.is_remote_frame());
}

#[test]
fn an_identifier_above_eleven_bits_makes_an_extended_frame() {
    let frame = encode_frame(0x800, &[]).unwrap();
    assert_eq!(frame.raw_id(), 0x800);
    assert!(frame.data().is_empty());
    assert!(frame.is_extended());
}

#[test]
fn the_largest_frame_is_accepted() {
    let frame = encode_frame(MAXIMUM_IDENTIFIER, &[1, 2, 3, 4, 5, 6, 7, 8]).unwrap();
    assert_eq!(frame.raw_id(), 0x1FFF_FFFF);
    assert_eq!(frame.data(), &[1, 2, 3, 4, 5, 6, 7, 8]);
}

#[test]
fn an_identifier_above_twenty_nine_bits_is_refused() {
    assert_eq!(
        encode_frame(0x2000_0000, &[1]).unwrap_err(),
        SendError::IdentifierOutOfRange { id: 0x2000_0000 }
    );
    assert_eq!(
        encode_frame(u32::MAX, &[]).unwrap_err(),
        SendError::IdentifierOutOfRange { id: u32::MAX }
    );
}

#[test]
fn a_payload_of_nine_bytes_is_refused() {
    assert_eq!(encode_frame(0x7E0, &[0; 9]).unwrap_err(), SendError::PayloadTooLong);
}

#[test]
fn the_payload_is_looked_at_before_the_identifier() {
    assert_eq!(encode_frame(u32::MAX, &[0; 9]).unwrap_err(), SendError::PayloadTooLong);
}
