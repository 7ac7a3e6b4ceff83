use ajax::can::CanFrame;
use ajax::flash::reply::{
    frame_is_response, read_command_status, read_crc, read_info, read_packet_status, AckStatus,
};
use ajax::protocol::{ACK, GET, GET_VERSION, NACK, WRITE_MEMORY};

fn frame(id: u32, data: &[u8]) -> CanFrame {
    CanFrame { id, data: data.to_vec() }
}

#[test]
fn a_command_is_acknowledged_or_rejected() {
    assert_eq!(read_command_status(&frame(8, &[ACK, GET]), 8, GET), Some(AckStatus::Ack));
    assert_eq!(read_command_status(&frame(8, &[NACK, GET]), 8, GET), Some(AckStatus::Nack));
}

#[test]
fn other_frames_say_nothing_of_a_command() {
    assert_eq!(read_command_status(&frame(9, &[ACK, GET]), 8, GET), None);
    assert_eq!(read_command_status(&frame(8, &[ACK, GET_VERSION]), 8, GET), None);
    assert_eq!(read_command_status(&frame(8, &[ACK, GET, 0]), 8, GET), None);
    assert_eq!(read_command_status(&frame(8, &[ACK]), 8, GET), None);
    assert_eq!(read_command_status(&frame(8, &[]), 8, GET), None);
    assert_eq!(read_command_status(&frame(8, &[0, GET]), 8, GET), None);
}

#[test]
fn a_packet_is_acknowledged_by_its_number() {
    let answer = frame(8, &[ACK, WRITE_MEMORY, 5]);
    assert_eq!(read_packet_status(&answer, 8, 5), Some(AckStatus::Ack));
    assert_eq!(read_packet_status(&answer, 8, 6), None);
    assert_eq!(read_packet_status(&answer, 9, 5), None);
}

#[test]
fn a_packet_is_rejected_with_or_without_its_number() {
    for data in [vec![NACK, WRITE_MEMORY], vec![NACK, WRITE_MEMORY, 9], vec![NACK, WRITE_MEMORY, 9, 9]] {
        assert_eq!(read_packet_status(&frame(8, &data), 8, 5), Some(AckStatus::Nack));
    }
}

#[test]
fn other_frames_say_nothing_of_a_packet() {
    assert_eq!(read_packet_status(&frame(8, &[ACK, WRITE_MEMORY]), 8, 5), None);
    assert_eq!(read_packet_status(&frame(8, &[ACK, WRITE_MEMORY, 5, 0]), 8, 5), None);
    assert_eq!(read_packet_status(&frame(8, &[ACK, GET, 5]), 8, 5), None);
    assert_eq!(read_packet_status(&frame(8, &[NACK, GET]), 8, 5), None);
    assert_eq!(read_packet_status(&frame(8, &[NACK]), 8, 5), None);
}

#[test]
fn a_response_starts_with_its_command_and_is_long_enough() {
    let answer = frame(8, &[GET_VERSION, 0x21, 1, 0]);
    assert!(frame_is_response(&answer, 8, GET_VERSION, 4));
    assert!(!frame_is_response(&answer, 8, GET_VERSION, 5));
    assert!(!frame_is_response(&answer, 9, GET_VERSION, 4));
    assert!(!frame_is_response(&answer, 8, GET, 4));
    assert!(frame_is_response(&frame(8, &[GET, 1, 2, 3, 4, 5]), 8, GET, 5));
}

#[test]
fn responses_are_read() {
    let info = read_info(&[GET_VERSION, 0x21, 1, 0]);
    assert_eq!(info.version, 0x21);
    assert!(info.bank_swap_enabled);
    assert!(!read_info(&[GET_VERSION, 0x21, 0, 1]).bank_swap_enabled);
    assert_eq!(read_crc(&[0xA8, 0x12, 0x34, 0x56, 0x78]), 0x1234_5678);
    assert_eq!(read_crc(&[0xA8, 0xFF, 0xFF, 0xFF, 0xFF, 0]), u32::MAX);
}
