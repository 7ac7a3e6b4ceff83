//! What the bootloader answers.

use crate::can::{CanFrame, FrameView};
use crate::protocol::{ACK, NACK, WRITE_MEMORY};
use crate::types::BootInfo;
use vstd::prelude::*;

verus! {

/// An acknowledgement.
#[derive(Debug, Clone, Copy, PartialEq, Eq, Structural)]
pub enum AckStatus {
    Ack,
    Nack,
}

/// What a frame says of a command: it is acknowledged, it is rejected, or nothing. Only a frame
/// of two bytes, the second of which is the command, speaks of it.
pub open spec fn command_status(frame: FrameView, response_id: u32, command: u8) -> Option<
    AckStatus,
> {
    if frame.id != response_id || frame.data.len() != 2 || frame.data[1] != command {
        None
    } else if frame.data[0] == ACK {
        Some(AckStatus::Ack)
    } else if frame.data[0] == NACK {
        Some(AckStatus::Nack)
    } else {
        None
    }
}

/// What a frame says of the write-data frame with a sequence number. A rejection of the write
/// command counts whatever follows it; an acknowledgement has to name the sequence number.
pub open spec fn packet_status(frame: FrameView, response_id: u32, sequence: u8) -> Option<
    AckStatus,
> {
    if frame.id != response_id || frame.data.len() < 2 || frame.data[1] != WRITE_MEMORY {
        None
    } else if frame.data[0] == NACK {
        Some(AckStatus::Nack)
    } else if frame.data.len() == 3 && frame.data[0] == ACK && frame.data[2] == sequence {
        Some(AckStatus::Ack)
    } else {
        None
    }
}

/// Whether a frame is the response to a command, with at least `minimum_length` bytes.
pub open spec fn is_response(
    frame: FrameView,
    response_id: u32,
    command: u8,
    minimum_length: int,
) -> bool {
    frame.id == response_id && frame.data.len() >= minimum_length && frame.data[0] == command
}

/// What a bootloader reports of itself in a response.
pub open spec fn reported_info(data: Seq<u8>) -> BootInfo {
    BootInfo { version: data[1], bank_swap_enabled: data[2] != 0 }
}

/// The CRC in a response, highest byte first.
pub open spec fn reported_crc(data: Seq<u8>) -> u32 {
    (data[1] * 0x100_0000 + data[2] * 0x1_0000 + data[3] * 0x100 + data[4]) as u32
}

/// Reads a frame as an acknowledgement of a command.
pub fn read_command_status(frame: &CanFrame, response_id: u32, command: u8) -> (status: Option<
    AckStatus,
>)
    ensures
        status == command_status(frame@, response_id, command),
{
    if frame.id != response_id || frame.data.len() != 2 || frame.data[1] != command {
        return None;
    }
    match frame.data[0] {
        ACK => Some(AckStatus::Ack),
        NACK => Some(AckStatus::Nack),
        _ => None,
    }
}

/// Reads a frame as an acknowledgement of a write-data frame.
pub fn read_packet_status(frame: &CanFrame, response_id: u32, sequence: u8) -> (status: Option<
    AckStatus,
>)
    ensures
        status == packet_status(frame@, response_id, sequence),
{
    if frame.id != response_id || frame.data.len() < 2 || frame.data[1] != WRITE_MEMORY {
        return None;
    }
    if frame.data[0] == NACK {
        return Some(AckStatus::Nack);
    }
    if frame.data.len() == 3 && frame.data[0] == ACK && frame.data[2] == sequence {
        return Some(AckStatus::Ack);
    }
    None
}

/// Whether a frame is the response to a command.
pub fn frame_is_response(
    frame: &CanFrame,
    response_id: u32,
    command: u8,
    minimum_length: usize,
) -> (result: bool)
    requires
        minimum_length >= 1,
    ensures
        result == is_response(frame@, response_id, command, minimum_length as int),
{
    frame.id == response_id && frame.data.len() >= minimum_length && frame.data[0] == command
}

/// Reads what a bootloader reports of itself.
pub fn read_info(data: &[u8]) -> (info: BootInfo)
    requires
        data@.len() >= 3,
    ensures
        info == reported_info(data@),
{
    BootInfo { version: data[1], bank_swap_enabled: data[2] != 0 }
}

/// Reads the CRC in a response.
pub fn read_crc(data: &[u8]) -> (crc: u32)
    requires
        data@.len() >= 5,
    ensures
        crc == reported_crc(data@),
{
    let upper: u32 = data[1] as u32 * 0x100 + data[2] as u32;
    let lower: u32 = data[3] as u32 * 0x100 + data[4] as u32;
    upper * 0x1_0000 + lower
}

/// A frame never acknowledges two commands.
pub proof fn law_a_frame_answers_one_command(
    frame: FrameView,
    response_id: u32,
    first: u8,
    second: u8,
)
    requires
        command_status(frame, response_id, first) is Some,
        command_status(frame, response_id, second) is Some,
    ensures
        first == second,
{
}

/// A frame never acknowledges two sequence numbers.
pub proof fn law_a_frame_acknowledges_one_packet(
    frame: FrameView,
    response_id: u32,
    first: u8,
    second: u8,
)
    requires
        packet_status(frame, response_id, first) == Some(AckStatus::Ack),
        packet_status(frame, response_id, second) == Some(AckStatus::Ack),
    ensures
        first == second,
{
}

/// A frame from another identifier than the one that answers are expected from says nothing.
pub proof fn law_other_frames_are_ignored(
    frame: FrameView,
    response_id: u32,
    command: u8,
    sequence: u8,
    minimum_length: int,
)
    requires
        frame.id != response_id,
    ensures
        command_status(frame, response_id, command) is None,
        packet_status(frame, response_id, sequence) is None,
        !is_response(frame, response_id, command, minimum_length),
{
}

} // verus!
