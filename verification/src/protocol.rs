//! Command bytes, limits and addresses of the bootloader protocol.

use vstd::prelude::*;

verus! {

/// First byte of a positive acknowledgement.
pub const ACK: u8 = 0x5A;

/// First byte of a negative acknowledgement.
pub const NACK: u8 = 0xA5;

pub const GET: u8 = 0xA1;

pub const GET_VERSION: u8 = 0xA2;

pub const GO: u8 = 0xA4;

pub const WRITE_MEMORY: u8 = 0xA5;

pub const ERASE_MEMORY: u8 = 0xA6;

pub const BANK_SWAP: u8 = 0xA7;

pub const COMPUTE_CRC: u8 = 0xA8;

pub const START_UPDATE: u8 = 0xA9;

pub const SET_BAUD_RATE: u8 = 0xAA;

/// The largest number of bytes that one write command carries.
pub const MAXIMUM_WRITE_SIZE: usize = 256;

/// The number of image bytes in a write-data frame, behind its sequence number.
pub const WRITE_FRAME_PAYLOAD_SIZE: usize = 7;

/// Where the application is linked, and where the active bank shows it.
pub const LOGICAL_APPLICATION_ADDRESS: u32 = 0x0800_8000;

pub const BANK_SIZE: u32 = 0x0010_0000;

/// Where the application of the inactive bank is written.
pub const INACTIVE_APPLICATION_ADDRESS: u32 = LOGICAL_APPLICATION_ADDRESS + BANK_SIZE;

/// The size of the application region of a bank.
pub const MAXIMUM_IMAGE_SIZE: usize = 0x000F_8000;

/// The largest image length that fits in the three length bytes of a start-update command.
pub const MAXIMUM_UPDATE_SIZE: usize = 0xFF_FFFF;

pub const FIRST_APPLICATION_SECTOR: u8 = 4;

pub const APPLICATION_SECTOR_COUNT: u8 = 124;

/// A bit rate that the bootloader has no code for.
#[derive(Debug, Clone, Copy, PartialEq, Eq, Structural)]
pub struct UnsupportedBaudRate {
    pub bit_rate: u32,
}

/// The bit rates that the bootloader knows, in the order of their codes.
pub open spec fn baud_rates() -> Seq<u32> {
    seq![125_000u32, 250_000u32, 500_000u32, 1_000_000u32]
}

/// Whether the bootloader knows a bit rate under a code.
pub open spec fn is_baud_rate_code(bit_rate: u32, code: u8) -> bool {
    code < baud_rates().len() && baud_rates()[code as int] == bit_rate
}

/// The code under which the bootloader knows a bit rate.
pub fn baud_rate_code(bit_rate: u32) -> (result: Result<u8, UnsupportedBaudRate>)
    ensures
        match result {
            Ok(code) => is_baud_rate_code(bit_rate, code),
            Err(error) => error.bit_rate == bit_rate && forall|code: u8|
                !is_baud_rate_code(bit_rate, code),
        },
{
    proof {
        let rates = baud_rates();
        assert(rates[0] == 125_000 && rates[1] == 250_000 && rates[2] == 500_000 && rates[3]
            == 1_000_000);
    }
    match bit_rate {
        125_000 => Ok(0x00),
        250_000 => Ok(0x01),
        500_000 => Ok(0x02),
        1_000_000 => Ok(0x03),
        _ => Err(UnsupportedBaudRate { bit_rate }),
    }
}

/// No bit rate has two codes, and no two bit rates share one.
pub proof fn law_baud_rate_codes_are_distinct(first: u32, second: u32, code: u8, other: u8)
    requires
        is_baud_rate_code(first, code),
        is_baud_rate_code(second, other),
    ensures
        first == second <==> code == other,
{
}

/// The bit rates that have a code, and their codes.
pub proof fn law_baud_rates_have_their_codes(bit_rate: u32, code: u8)
    ensures
        is_baud_rate_code(bit_rate, code) <==> {
            ||| bit_rate == 125_000 && code == 0
            ||| bit_rate == 250_000 && code == 1
            ||| bit_rate == 500_000 && code == 2
            ||| bit_rate == 1_000_000 && code == 3
        },
{
}

} // verus!
