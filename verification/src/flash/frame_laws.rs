//! What the frames of the protocol say, byte by byte.

use crate::can::FrameView;
use crate::flash::plan::{
    block_at, completion_steps, entry_steps, packet_frame, preparation_steps, update_steps,
    write_request, write_steps, Block, Command, ImageTooLong, Stage, Step,
};
use crate::flash::reply::{
    command_status, is_response, packet_status, reported_crc, reported_info, AckStatus,
};
use crate::types::BootInfo;
use vstd::prelude::*;

verus! {

/// The number in four bytes from an offset on, the highest byte first.
pub open spec fn four_bytes(data: Seq<u8>, offset: int) -> int {
    data[offset] * 0x100_0000 + data[offset + 1] * 0x1_0000 + data[offset + 2] * 0x100 + data[offset
        + 3]
}

/// The smaller of two numbers.
pub open spec fn smaller(left: int, right: int) -> int {
    if left < right {
        left
    } else {
        right
    }
}

/// The write command of a block names the address that is as far behind the start of the inactive
/// bank as the block is behind the start of the image, and the length of the block.
pub proof fn law_a_write_command_names_address_and_length(block: Block)
    requires
        block.length <= 0xFFFF,
        0x0810_8000 + block.offset <= u32::MAX,
    ensures
        write_request(block).len() == 7,
        write_request(block)[0] == 0xA5,
        four_bytes(write_request(block), 1) == 0x0810_8000 + block.offset,
        write_request(block)[5] * 0x100 + write_request(block)[6] == block.length,
{
}

/// Block `index` of an image is written 256 times its number behind the start of the inactive
/// bank, with all of its 256 bytes, or with what is left of the image.
pub proof fn law_blocks_are_written_to_their_place(total: int, index: int)
    requires
        0 <= 256 * index < total <= 0xFF_FFFF,
    ensures
        ({
            let request = write_request(block_at(total, index));
            &&& request.len() == 7
            &&& request[0] == 0xA5
            &&& four_bytes(request, 1) == 0x0810_8000 + 256 * index
            &&& request[5] * 0x100 + request[6] == smaller(256, total - 256 * index)
        }),
{
    let block = block_at(total, index);
    assert(block.offset == 256 * index);
    law_a_write_command_names_address_and_length(block);
}

/// Every byte of an image is in the write-data frame that its place calls for: in the block of its
/// 256 bytes, the frame of its seven bytes, behind the number of the frame.
pub proof fn law_every_byte_is_in_its_frame(image: Seq<u8>, i: int)
    requires
        0 <= i < image.len() <= usize::MAX,
    ensures
        ({
            let block = block_at(image.len() as int, i / 256);
            let frame = packet_frame(image, block, i % 256 / 7);
            &&& frame[0] == i % 256 / 7
            &&& frame[1 + i % 256 % 7] == image[i]
            &&& frame.len() == 1 + smaller(
                7,
                smaller(256, image.len() - i / 256 * 256) - i % 256 / 7 * 7,
            )
        }),
{
    let total = image.len() as int;
    let block = block_at(total, i / 256);
    let packet = i % 256 / 7;
    assert(block.offset == i / 256 * 256);
    assert(block.length == smaller(256, total - i / 256 * 256));
    assert(packet * 7 + i % 256 % 7 == i % 256);
    assert(block.offset + i % 256 == i);
}

/// An update goes through its steps: into the bootloader, unless it runs already, then version,
/// start, erasure, each block with what is then complete, CRC and swap.
pub proof fn law_an_update_goes_through_its_steps(total: int, already: bool, index: int)
    requires
        0 <= total <= usize::MAX,
    ensures
        ({
            let plan = update_steps(total, already);
            let start: int = if already {
                0
            } else {
                4
            };
            let blocks = (total + 255) / 256;
            let end = start + 6 + 2 * blocks;
            &&& plan.len() == end + 5
            &&& !already ==> {
                &&& plan[0] == Step::Report(Stage::EnteringBootloader)
                &&& plan[1] == Step::RequestBootloader
                &&& plan[2] == Step::BootDelay
                &&& plan[3] == Step::Exchange(Command::BootPing)
            }
            &&& plan[start] == Step::Report(Stage::DetectingBootloader)
            &&& plan[start + 1] == Step::Exchange(Command::GetVersion)
            &&& plan[start + 2] == Step::Report(Stage::StartingUpdate)
            &&& plan[start + 3] == Step::Exchange(Command::StartUpdate)
            &&& plan[start + 4] == Step::Report(Stage::ErasingInactiveBank)
            &&& plan[start + 5] == Step::Exchange(Command::Erase)
            &&& 0 <= index < blocks ==> {
                let length = smaller(256, total - 256 * index);
                &&& plan[start + 6 + 2 * index] == Step::Write(
                    Block { offset: (256 * index) as usize, length: length as usize },
                )
                &&& plan[start + 7 + 2 * index] == Step::Report(
                    Stage::Programming {
                        completed: (256 * index + length) as usize,
                        total: total as usize,
                    },
                )
            }
            &&& plan[end] == Step::Report(Stage::VerifyingCrc)
            &&& plan[end + 1] == Step::Exchange(Command::ComputeCrc)
            &&& plan[end + 2] == Step::Report(Stage::SwappingBanks)
            &&& plan[end + 3] == Step::Exchange(Command::SwapBanks)
            &&& plan[end + 4] == Step::Report(Stage::Complete)
        }),
{
    let plan = update_steps(total, already);
    let before = entry_steps(already) + preparation_steps();
    let writes = write_steps(total);
    let after = completion_steps();
    let blocks = (total + 255) / 256;
    let start: int = if already {
        0
    } else {
        4
    };
    let end = start + 6 + 2 * blocks;
    assert(writes.len() == 2 * blocks);
    assert(before.len() == start + 6);
    assert forall|i: int| 0 <= i < before.len() implies plan[i] == #[trigger] before[i] by {}
    assert forall|i: int| 0 <= i < 6 implies before[start + i]
        == #[trigger] preparation_steps()[i] by {}
    assert forall|i: int| 0 <= i < 5 implies plan[end + i] == #[trigger] after[i] by {}
    if !already {
        assert(before[0] == Step::Report(Stage::EnteringBootloader));
        assert(before[1] == Step::RequestBootloader);
        assert(before[2] == Step::BootDelay);
        assert(before[3] == Step::Exchange(Command::BootPing));
    }
    assert(preparation_steps()[0] == before[start]);
    assert(preparation_steps()[1] == before[start + 1]);
    assert(preparation_steps()[2] == before[start + 2]);
    assert(preparation_steps()[3] == before[start + 3]);
    assert(preparation_steps()[4] == before[start + 4]);
    assert(preparation_steps()[5] == before[start + 5]);
    assert(after[0] == plan[end]);
    assert(after[1] == plan[end + 1]);
    assert(after[2] == plan[end + 2]);
    assert(after[3] == plan[end + 3]);
    assert(after[4] == plan[end + 4]);
    if 0 <= index < blocks {
        assert(plan[start + 6 + 2 * index] == writes[2 * index]);
        assert(plan[start + 7 + 2 * index] == writes[2 * index + 1]);
        assert((2 * index) / 2 == index && (2 * index + 1) / 2 == index);
    }
}

/// The bytes of every command. The start of an update names the length of the image and its CRC,
/// the start of the application its address, and the erasure the sectors.
pub proof fn law_commands_say_what_they_ask_for(command: Command, length: int, crc: u32)
    requires
        length >= 0,
    ensures
        ({
            let request = command.spec_request(length, crc);
            match command {
                Command::Ping | Command::BootPing => request == Ok::<_, ImageTooLong>(seq![0xA1u8]),
                Command::GetVersion => request == Ok::<_, ImageTooLong>(seq![0xA2u8]),
                Command::StartApplication => request matches Ok(data) && data.len() == 5 && data[0]
                    == 0xA4 && four_bytes(data, 1) == 0x0800_8000,
                Command::SetBaudRate { code } => request == Ok::<_, ImageTooLong>(
                    seq![0xAAu8, code],
                ),
                Command::StartUpdate => if length <= 0xFF_FFFF {
                    request matches Ok(data) && data.len() == 8 && data[0] == 0xA9 && data[1]
                        * 0x1_0000 + data[2] * 0x100 + data[3] == length && four_bytes(data, 4)
                        == crc
                } else {
                    request is Err
                },
                Command::Erase => request == Ok::<_, ImageTooLong>(seq![0xA6u8, 4u8, 124u8]),
                Command::ComputeCrc => request == Ok::<_, ImageTooLong>(seq![0xA8u8]),
                Command::SwapBanks => request == Ok::<_, ImageTooLong>(seq![0xA7u8]),
            }
        }),
{
}

/// A command that is acknowledged is answered with two bytes, of which the second is the command,
/// and so is one that is rejected. Nothing else says anything of it.
pub proof fn law_acknowledgements_are_two_bytes(frame: FrameView, id: u32, command: u8)
    ensures
        command_status(frame, id, command) == Some(AckStatus::Ack) <==> frame.id == id
            && frame.data == seq![0x5Au8, command],
        command_status(frame, id, command) == Some(AckStatus::Nack) <==> frame.id == id
            && frame.data == seq![0xA5u8, command],
{
    if frame.data.len() == 2 {
        assert(frame.data =~= seq![frame.data[0], frame.data[1]]);
    }
}

/// A write-data frame is acknowledged by three bytes with its number, and rejected by a rejection
/// of the write command, whatever follows it. Nothing else says anything of it.
pub proof fn law_packets_are_acknowledged_by_number(frame: FrameView, id: u32, sequence: u8)
    ensures
        packet_status(frame, id, sequence) == Some(AckStatus::Ack) <==> frame.id == id && frame.data
            == seq![0x5Au8, 0xA5u8, sequence],
        packet_status(frame, id, sequence) == Some(AckStatus::Nack) <==> frame.id == id
            && frame.data.len() >= 2 && frame.data[0] == 0xA5 && frame.data[1] == 0xA5,
{
    if frame.data.len() == 3 {
        assert(frame.data =~= seq![frame.data[0], frame.data[1], frame.data[2]]);
    }
}

/// A response starts with its command and is as long as it has to be. It reports a version and the
/// state of the banks, or a CRC, the highest byte first.
pub proof fn law_responses_report(frame: FrameView, id: u32, command: u8, length: int)
    requires
        length >= 1,
    ensures
        is_response(frame, id, command, length) <==> frame.id == id && frame.data.len() >= length
            && frame.data[0] == command,
        reported_info(frame.data) == (BootInfo {
            version: frame.data[1],
            bank_swap_enabled: frame.data[2] != 0,
        }),
        reported_crc(frame.data) == four_bytes(frame.data, 1),
{
}

} // verus!
