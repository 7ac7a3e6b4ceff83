//! CAN frames.

use socketcan::{CanFrame as SocketCanFrame, Frame};
use vstd::prelude::*;

verus! {

/// A classical CAN frame: an identifier and up to eight bytes.
#[derive(Debug, Clone)]
pub struct CanFrame {
    pub id: u32,
    pub data: Vec<u8>,
}

/// What a frame holds.
pub struct FrameView {
    pub id: u32,
    pub data: Seq<u8>,
}

impl View for CanFrame {
    type V = FrameView;

    open spec fn view(&self) -> FrameView {
        FrameView { id: self.id, data: self.data@ }
    }
}

/// The largest payload of a classical CAN frame.
pub const MAXIMUM_PAYLOAD: usize = 8;

/// The largest extended identifier.
pub const MAXIMUM_IDENTIFIER: u32 = 0x1FFF_FFFF;

/// Declares `socketcan::CanFrame`, a frame in the form that the operating system takes. Nothing is
/// said of what is inside.
#[verifier::external_type_specification]
#[verifier::external_body]
pub struct ExSocketCanFrame(SocketCanFrame);

/// The frame that `socketcan::Frame::from_raw_id` builds for an identifier and a payload.
pub uninterp spec fn raw_can_frame(id: u32, payload: Seq<u8>) -> SocketCanFrame;

/// Calls `socketcan::Frame::from_raw_id` for a `socketcan::CanFrame`.
///
/// Claimed, and not proved: it builds a frame exactly where the identifier is no larger than the
/// largest extended one and the payload has at most eight bytes, and that frame depends on the
/// identifier and the payload alone.
#[verifier::external_body]
fn from_raw_id(id: u32, data: &[u8]) -> (frame: Option<SocketCanFrame>)
    ensures
        frame == (if id <= MAXIMUM_IDENTIFIER && data@.len() <= MAXIMUM_PAYLOAD {
            Some(raw_can_frame(id, data@))
        } else {
            None
        }),
{
    SocketCanFrame::from_raw_id(id, data)
}

/// Why a message cannot be put on the bus.
#[derive(Debug, Clone, Copy, PartialEq, Eq, Structural)]
pub enum SendError {
    PayloadTooLong,
    IdentifierOutOfRange { id: u32 },
}

/// The frame that is put on the bus for a message.
pub fn encode_frame(id: u32, data: &[u8]) -> (result: Result<SocketCanFrame, SendError>)
    ensures
        result == (if data@.len() > MAXIMUM_PAYLOAD {
            Err(SendError::PayloadTooLong)
        } else if id > MAXIMUM_IDENTIFIER {
            Err(SendError::IdentifierOutOfRange { id })
        } else {
            Ok(raw_can_frame(id, data@))
        }),
        result is Ok <==> data@.len() <= 8 && id <= 0x1FFF_FFFF,
{
    if data.len() > MAXIMUM_PAYLOAD {
        return Err(SendError::PayloadTooLong);
    }
    match from_raw_id(id, data) {
        Some(frame) => Ok(frame),
        None => Err(SendError::IdentifierOutOfRange { id }),
    }
}

} // verus!
