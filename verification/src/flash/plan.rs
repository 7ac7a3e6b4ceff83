//! The steps of an operation on an ECU.

use crate::protocol::{
    APPLICATION_SECTOR_COUNT, BANK_SWAP, COMPUTE_CRC, ERASE_MEMORY, FIRST_APPLICATION_SECTOR, GET,
    GET_VERSION, GO, INACTIVE_APPLICATION_ADDRESS, LOGICAL_APPLICATION_ADDRESS, MAXIMUM_UPDATE_SIZE,
    MAXIMUM_WRITE_SIZE, SET_BAUD_RATE, START_UPDATE, WRITE_FRAME_PAYLOAD_SIZE, WRITE_MEMORY,
};
use vstd::prelude::*;

verus! {

/// How long an answer may take, in milliseconds.
pub const COMMAND_TIMEOUT: u64 = 5_000;

/// How long the acknowledgement of a write-data frame may take.
pub const PACKET_TIMEOUT: u64 = 500;

/// How long erasing may take.
pub const ERASE_TIMEOUT: u64 = 30_000;

/// The pause before something is tried again.
pub const RETRY_DELAY: u64 = 100;

/// The pause that the ECU gets to start its bootloader.
pub const BOOT_DELAY: u64 = 750;

/// How often a command or a block is tried.
pub const MAX_ATTEMPTS: u8 = 3;

/// How often a write command or a write-data frame is sent without an answer.
pub const MAX_WRITE_PACKET_ATTEMPTS: u8 = 4;

/// The number of write-data frames of a full block.
pub const MAXIMUM_PACKETS: usize = 37;

/// A command that the bootloader acknowledges.
#[derive(Debug, Clone, Copy, PartialEq, Eq, Structural)]
pub enum Command {
    Ping,
    /// The ping that finds out whether the bootloader has started.
    BootPing,
    GetVersion,
    StartApplication,
    SetBaudRate { code: u8 },
    StartUpdate,
    Erase,
    ComputeCrc,
    SwapBanks,
}

/// How far an update has come.
#[derive(Debug, Clone, Copy, PartialEq, Eq, Structural)]
pub enum Stage {
    EnteringBootloader,
    DetectingBootloader,
    StartingUpdate,
    ErasingInactiveBank,
    Programming { completed: usize, total: usize },
    VerifyingCrc,
    SwappingBanks,
    Complete,
}

/// A part of the image that one write command carries.
#[derive(Debug, Clone, Copy, PartialEq, Eq, Structural)]
pub struct Block {
    pub offset: usize,
    pub length: usize,
}

/// A step of an operation.
#[derive(Debug, Clone, Copy, PartialEq, Eq, Structural)]
pub enum Step {
    /// Shows how far the update has come.
    Report(Stage),
    /// Asks the application to start the bootloader.
    RequestBootloader,
    /// Waits for the bootloader to start.
    BootDelay,
    Exchange(Command),
    Write(Block),
}

/// The image is longer than the protocol can say.
#[derive(Debug, Clone, Copy, PartialEq, Eq, Structural)]
pub struct ImageTooLong;

/// The four bytes of a number, highest first.
pub open spec fn big_endian_bytes(value: u32) -> Seq<u8> {
    seq![
        (value / 0x100_0000) as u8,
        (value / 0x1_0000 % 0x100) as u8,
        (value / 0x100 % 0x100) as u8,
        (value % 0x100) as u8,
    ]
}

/// The four bytes of a number, highest first.
pub fn to_big_endian(value: u32) -> (bytes: [u8; 4])
    ensures
        bytes@ == big_endian_bytes(value),
{
    let bytes: [u8; 4] = [
        (value / 0x100_0000) as u8,
        (value / 0x1_0000 % 0x100) as u8,
        (value / 0x100 % 0x100) as u8,
        (value % 0x100) as u8,
    ];
    assert(bytes@ =~= big_endian_bytes(value));
    bytes
}

impl Command {
    /// The byte that stands for the command.
    pub open spec fn spec_opcode(self) -> u8 {
        match self {
            Command::Ping => GET,
            Command::BootPing => GET,
            Command::GetVersion => GET_VERSION,
            Command::StartApplication => GO,
            Command::SetBaudRate { .. } => SET_BAUD_RATE,
            Command::StartUpdate => START_UPDATE,
            Command::Erase => ERASE_MEMORY,
            Command::ComputeCrc => COMPUTE_CRC,
            Command::SwapBanks => BANK_SWAP,
        }
    }

    /// How often the command is tried.
    pub open spec fn spec_attempts(self) -> u8 {
        match self {
            Command::StartApplication | Command::SetBaudRate { .. } | Command::SwapBanks => 1,
            _ => MAX_ATTEMPTS,
        }
    }

    /// How long the acknowledgement may take.
    pub open spec fn spec_timeout(self) -> u64 {
        match self {
            Command::Erase => ERASE_TIMEOUT,
            _ => COMMAND_TIMEOUT,
        }
    }

    /// The shortest response, where one follows the acknowledgement.
    pub open spec fn spec_response_length(self) -> Option<usize> {
        match self {
            Command::GetVersion => Some(4),
            Command::ComputeCrc => Some(5),
            _ => None,
        }
    }

    /// The bytes that are sent for the command, with the length and the CRC of the image.
    pub open spec fn spec_request(self, length: int, crc: u32) -> Result<Seq<u8>, ImageTooLong> {
        match self {
            Command::StartApplication => Ok(
                seq![GO] + big_endian_bytes(LOGICAL_APPLICATION_ADDRESS),
            ),
            Command::SetBaudRate { code } => Ok(seq![SET_BAUD_RATE, code]),
            Command::StartUpdate => if length > MAXIMUM_UPDATE_SIZE {
                Err(ImageTooLong)
            } else {
                Ok(
                    seq![
                        START_UPDATE,
                        (length / 0x1_0000) as u8,
                        (length / 0x100 % 0x100) as u8,
                        (length % 0x100) as u8,
                    ] + big_endian_bytes(crc),
                )
            },
            Command::Erase => Ok(
                seq![ERASE_MEMORY, FIRST_APPLICATION_SECTOR, APPLICATION_SECTOR_COUNT],
            ),
            _ => Ok(seq![self.spec_opcode()]),
        }
    }

    /// The byte that stands for the command.
    #[verifier::when_used_as_spec(spec_opcode)]
    pub fn opcode(self) -> (opcode: u8)
        ensures
            opcode == self.opcode(),
    {
        match self {
            Command::Ping => GET,
            Command::BootPing => GET,
            Command::GetVersion => GET_VERSION,
            Command::StartApplication => GO,
            Command::SetBaudRate { .. } => SET_BAUD_RATE,
            Command::StartUpdate => START_UPDATE,
            Command::Erase => ERASE_MEMORY,
            Command::ComputeCrc => COMPUTE_CRC,
            Command::SwapBanks => BANK_SWAP,
        }
    }

    /// How often the command is tried.
    #[verifier::when_used_as_spec(spec_attempts)]
    pub fn attempts(self) -> (attempts: u8)
        ensures
            attempts == self.attempts(),
    {
        match self {
            Command::StartApplication | Command::SetBaudRate { .. } | Command::SwapBanks => 1,
            _ => MAX_ATTEMPTS,
        }
    }

    /// How long the acknowledgement may take.
    #[verifier::when_used_as_spec(spec_timeout)]
    pub fn timeout(self) -> (timeout: u64)
        ensures
            timeout == self.timeout(),
    {
        match self {
            Command::Erase => ERASE_TIMEOUT,
            _ => COMMAND_TIMEOUT,
        }
    }

    /// The shortest response, where one follows the acknowledgement.
    #[verifier::when_used_as_spec(spec_response_length)]
    pub fn response_length(self) -> (length: Option<usize>)
        ensures
            length == self.response_length(),
    {
        match self {
            Command::GetVersion => Some(4),
            Command::ComputeCrc => Some(5),
            _ => None,
        }
    }

    /// The bytes that are sent for the command.
    pub fn request(self, length: usize, crc: u32) -> (result: Result<Vec<u8>, ImageTooLong>)
        ensures
            match result {
                Ok(request) => self.spec_request(length as int, crc) == Ok::<
                    Seq<u8>,
                    ImageTooLong,
                >(request@),
                Err(error) => self.spec_request(length as int, crc) == Err::<
                    Seq<u8>,
                    ImageTooLong,
                >(error),
            },
    {
        let mut request: Vec<u8> = Vec::new();
        request.push(self.opcode());
        match self {
            Command::StartApplication => {
                push_bytes(&mut request, &to_big_endian(LOGICAL_APPLICATION_ADDRESS));
                assert(request@ =~= seq![GO] + big_endian_bytes(LOGICAL_APPLICATION_ADDRESS));
            },
            Command::SetBaudRate { code } => {
                request.push(code);
                assert(request@ =~= seq![SET_BAUD_RATE, code]);
            },
            Command::StartUpdate => {
                if length > MAXIMUM_UPDATE_SIZE {
                    return Err(ImageTooLong);
                }
                request.push((length / 0x1_0000) as u8);
                request.push((length / 0x100 % 0x100) as u8);
                request.push((length % 0x100) as u8);
                push_bytes(&mut request, &to_big_endian(crc));
                assert(request@ =~= seq![
                    START_UPDATE,
                    (length as int / 0x1_0000) as u8,
                    (length as int / 0x100 % 0x100) as u8,
                    (length as int % 0x100) as u8,
                ] + big_endian_bytes(crc));
            },
            Command::Erase => {
                request.push(FIRST_APPLICATION_SECTOR);
                request.push(APPLICATION_SECTOR_COUNT);
                assert(request@ =~= seq![
                    ERASE_MEMORY,
                    FIRST_APPLICATION_SECTOR,
                    APPLICATION_SECTOR_COUNT,
                ]);
            },
            _ => {
                assert(request@ =~= seq![self.opcode()]);
            },
        }
        Ok(request)
    }
}

/// Appends bytes.
pub fn push_bytes(out: &mut Vec<u8>, bytes: &[u8])
    ensures
        final(out)@ == old(out)@ + bytes@,
{
    let mut index: usize = 0;
    assert(out@ + bytes@.take(0) =~= out@);
    while index < bytes.len()
        invariant
            index <= bytes@.len(),
            out@ == old(out)@ + bytes@.take(index as int),
        decreases bytes@.len() - index,
    {
        out.push(bytes[index]);
        assert(out@ =~= old(out)@ + bytes@.take(index + 1));
        index += 1;
    }
    assert(bytes@.take(index as int) =~= bytes@);
}

/// The number of blocks of an image.
pub open spec fn block_count(total: int) -> int {
    (total + MAXIMUM_WRITE_SIZE - 1) / MAXIMUM_WRITE_SIZE as int
}

/// A block of an image: all are full but the last, which holds what is left.
pub open spec fn block_at(total: int, index: int) -> Block {
    let offset = index * MAXIMUM_WRITE_SIZE;
    Block {
        offset: offset as usize,
        length: (if total - offset < MAXIMUM_WRITE_SIZE {
            total - offset
        } else {
            MAXIMUM_WRITE_SIZE as int
        }) as usize,
    }
}

/// The bytes of a block.
pub open spec fn block_bytes(image: Seq<u8>, block: Block) -> Seq<u8> {
    image.subrange(block.offset as int, block.offset + block.length)
}

/// Where a block is written.
pub open spec fn block_address(block: Block) -> u32 {
    ((INACTIVE_APPLICATION_ADDRESS + block.offset) % 0x1_0000_0000) as u32
}

/// The bytes of the write command for a block: the address and the length.
pub open spec fn write_request(block: Block) -> Seq<u8> {
    seq![WRITE_MEMORY] + big_endian_bytes(block_address(block)) + seq![
        (block.length as int / 0x100) as u8,
        (block.length as int % 0x100) as u8,
    ]
}

/// The number of write-data frames for a block.
pub open spec fn packet_count(length: int) -> int {
    (length + WRITE_FRAME_PAYLOAD_SIZE - 1) / WRITE_FRAME_PAYLOAD_SIZE as int
}

/// The image bytes in a write-data frame.
pub open spec fn packet_payload(image: Seq<u8>, block: Block, packet: int) -> Seq<u8> {
    let start = packet * WRITE_FRAME_PAYLOAD_SIZE;
    let end = if start + WRITE_FRAME_PAYLOAD_SIZE < block.length {
        start + WRITE_FRAME_PAYLOAD_SIZE
    } else {
        block.length as int
    };
    block_bytes(image, block).subrange(start, end)
}

/// The sequence number of a write-data frame.
pub open spec fn packet_sequence(packet: int) -> u8 {
    (packet % 0x100) as u8
}

/// The bytes of a write-data frame: its sequence number, then image bytes.
pub open spec fn packet_frame(image: Seq<u8>, block: Block, packet: int) -> Seq<u8> {
    seq![packet_sequence(packet)] + packet_payload(image, block, packet)
}

/// Writing an image: each block, and behind each how far the update has come.
pub open spec fn write_steps(total: int) -> Seq<Step> {
    Seq::new(
        (2 * block_count(total)) as nat,
        |i: int|
            {
                let block = block_at(total, i / 2);
                if i % 2 == 0 {
                    Step::Write(block)
                } else {
                    Step::Report(
                        Stage::Programming {
                            completed: (block.offset + block.length) as usize,
                            total: total as usize,
                        },
                    )
                }
            },
    )
}

/// Starting the bootloader, and finding out whether it has started.
pub open spec fn bootloader_steps() -> Seq<Step> {
    seq![Step::RequestBootloader, Step::BootDelay, Step::Exchange(Command::BootPing)]
}

/// What an update starts with: the bootloader, unless it runs already.
pub open spec fn entry_steps(already_in_bootloader: bool) -> Seq<Step> {
    if already_in_bootloader {
        Seq::empty()
    } else {
        seq![Step::Report(Stage::EnteringBootloader)] + bootloader_steps()
    }
}

/// What comes before the image is written.
pub open spec fn preparation_steps() -> Seq<Step> {
    seq![
        Step::Report(Stage::DetectingBootloader),
        Step::Exchange(Command::GetVersion),
        Step::Report(Stage::StartingUpdate),
        Step::Exchange(Command::StartUpdate),
        Step::Report(Stage::ErasingInactiveBank),
        Step::Exchange(Command::Erase),
    ]
}

/// What comes after the image is written.
pub open spec fn completion_steps() -> Seq<Step> {
    seq![
        Step::Report(Stage::VerifyingCrc),
        Step::Exchange(Command::ComputeCrc),
        Step::Report(Stage::SwappingBanks),
        Step::Exchange(Command::SwapBanks),
        Step::Report(Stage::Complete),
    ]
}

/// Updating an ECU with an image of `total` bytes.
pub open spec fn update_steps(total: int, already_in_bootloader: bool) -> Seq<Step> {
    entry_steps(already_in_bootloader) + preparation_steps() + write_steps(total)
        + completion_steps()
}

/// The bytes of the write command for a block.
pub fn build_write_request(block: Block) -> (request: Vec<u8>)
    requires
        block.length <= 0xFFFF,
    ensures
        request@ == write_request(block),
{
    let low: u32 = (block.offset as u64 % 0x1_0000_0000) as u32;
    let address: u32 = ((INACTIVE_APPLICATION_ADDRESS as u64 + low as u64) % 0x1_0000_0000) as u32;
    assert(address == block_address(block));
    let mut request: Vec<u8> = Vec::new();
    request.push(WRITE_MEMORY);
    push_bytes(&mut request, &to_big_endian(address));
    request.push((block.length / 0x100) as u8);
    request.push((block.length % 0x100) as u8);
    assert(request@ =~= write_request(block));
    request
}

/// The bytes of a write-data frame.
pub fn build_packet(image: &[u8], block: Block, packet: usize) -> (frame: Vec<u8>)
    requires
        block.offset + block.length <= image@.len(),
        packet * WRITE_FRAME_PAYLOAD_SIZE < block.length,
    ensures
        frame@ == packet_frame(image@, block, packet as int),
{
    let total: usize = image.len();
    let start: usize = packet * WRITE_FRAME_PAYLOAD_SIZE;
    let length: usize = if block.length - start > WRITE_FRAME_PAYLOAD_SIZE {
        WRITE_FRAME_PAYLOAD_SIZE
    } else {
        block.length - start
    };
    let from: usize = block.offset + start;
    let mut frame: Vec<u8> = Vec::new();
    frame.push((packet % 0x100) as u8);
    push_bytes(&mut frame, vstd::slice::slice_subrange(image, from, from + length));
    assert(frame@ =~= packet_frame(image@, block, packet as int));
    frame
}

/// Appends the steps that start the bootloader.
fn push_bootloader_steps(steps: &mut Vec<Step>)
    ensures
        final(steps)@ == old(steps)@ + bootloader_steps(),
{
    steps.push(Step::RequestBootloader);
    steps.push(Step::BootDelay);
    steps.push(Step::Exchange(Command::BootPing));
    assert(steps@ =~= old(steps)@ + bootloader_steps());
}

/// The steps that start the bootloader.
pub fn build_bootloader_steps() -> (steps: Vec<Step>)
    ensures
        steps@ == bootloader_steps(),
{
    let mut steps: Vec<Step> = Vec::new();
    push_bootloader_steps(&mut steps);
    assert(steps@ =~= bootloader_steps());
    steps
}

/// The only step of an operation that is one command.
pub fn build_exchange(command: Command) -> (steps: Vec<Step>)
    ensures
        steps@ == seq![Step::Exchange(command)],
{
    let mut steps: Vec<Step> = Vec::new();
    steps.push(Step::Exchange(command));
    assert(steps@ =~= seq![Step::Exchange(command)]);
    steps
}

/// Appends the steps that write an image.
fn push_write_steps(steps: &mut Vec<Step>, total: usize)
    ensures
        final(steps)@ == old(steps)@ + write_steps(total as int),
{
    let ghost before = steps@;
    let mut completed: usize = 0;
    let ghost mut blocks: int = 0;
    assert(before + write_steps(total as int).take(0) =~= before);
    while completed < total
        invariant
            0 <= blocks <= block_count(total as int),
            completed < total ==> completed == blocks * MAXIMUM_WRITE_SIZE,
            completed >= total ==> blocks == block_count(total as int),
            completed <= total,
            steps@ == before + write_steps(total as int).take(2 * blocks),
        decreases total - completed,
    {
        let length: usize = if total - completed > MAXIMUM_WRITE_SIZE {
            MAXIMUM_WRITE_SIZE
        } else {
            total - completed
        };
        let block: Block = Block { offset: completed, length };
        assert(block == block_at(total as int, blocks));
        completed += length;
        steps.push(Step::Write(block));
        steps.push(Step::Report(Stage::Programming { completed, total }));
        proof {
            let all = write_steps(total as int);
            assert(all[2 * blocks] == Step::Write(block));
            assert(all[2 * blocks + 1] == Step::Report(Stage::Programming { completed, total }));
            assert(steps@ =~= before + all.take(2 * (blocks + 1)));
            blocks = blocks + 1;
        }
    }
    assert(write_steps(total as int).take(2 * blocks) =~= write_steps(total as int));
}

/// The steps of an update.
pub fn build_update_steps(total: usize, already_in_bootloader: bool) -> (steps: Vec<Step>)
    ensures
        steps@ == update_steps(total as int, already_in_bootloader),
{
    let mut steps: Vec<Step> = Vec::new();
    if !already_in_bootloader {
        steps.push(Step::Report(Stage::EnteringBootloader));
        push_bootloader_steps(&mut steps);
    }
    assert(steps@ =~= entry_steps(already_in_bootloader));
    steps.push(Step::Report(Stage::DetectingBootloader));
    steps.push(Step::Exchange(Command::GetVersion));
    steps.push(Step::Report(Stage::StartingUpdate));
    steps.push(Step::Exchange(Command::StartUpdate));
    steps.push(Step::Report(Stage::ErasingInactiveBank));
    steps.push(Step::Exchange(Command::Erase));
    assert(steps@ =~= entry_steps(already_in_bootloader) + preparation_steps());
    push_write_steps(&mut steps, total);
    steps.push(Step::Report(Stage::VerifyingCrc));
    steps.push(Step::Exchange(Command::ComputeCrc));
    steps.push(Step::Report(Stage::SwappingBanks));
    steps.push(Step::Exchange(Command::SwapBanks));
    steps.push(Step::Report(Stage::Complete));
    assert(steps@ =~= update_steps(total as int, already_in_bootloader));
    steps
}

/// The bytes of the first `count` blocks, one behind the other.
pub open spec fn joined_blocks(image: Seq<u8>, count: int) -> Seq<u8>
    decreases count,
{
    if count <= 0 {
        Seq::empty()
    } else {
        joined_blocks(image, count - 1) + block_bytes(
            image,
            block_at(image.len() as int, count - 1),
        )
    }
}

/// The image bytes in the first `count` write-data frames of a block, one behind the other.
pub open spec fn joined_packets(image: Seq<u8>, block: Block, count: int) -> Seq<u8>
    decreases count,
{
    if count <= 0 {
        Seq::empty()
    } else {
        joined_packets(image, block, count - 1) + packet_payload(image, block, count - 1)
    }
}

proof fn lemma_joined_blocks(image: Seq<u8>, count: int)
    requires
        image.len() <= usize::MAX,
        0 <= count <= block_count(image.len() as int),
    ensures
        joined_blocks(image, count) == image.take(
            if count * MAXIMUM_WRITE_SIZE < image.len() {
                count * MAXIMUM_WRITE_SIZE
            } else {
                image.len() as int
            },
        ),
    decreases count,
{
    if count > 0 {
        lemma_joined_blocks(image, count - 1);
        let block = block_at(image.len() as int, count - 1);
        assert(block.offset == (count - 1) * MAXIMUM_WRITE_SIZE);
        assert(joined_blocks(image, count) =~= image.take(block.offset + block.length));
    }
}

/// The blocks of an image, one behind the other, are the image. No block is empty or longer than
/// a write command allows.
pub proof fn law_blocks_make_up_the_image(image: Seq<u8>, index: int)
    requires
        image.len() <= usize::MAX,
    ensures
        joined_blocks(image, block_count(image.len() as int)) == image,
        0 <= index < block_count(image.len() as int) ==> {
            let block = block_at(image.len() as int, index);
            1 <= block.length <= MAXIMUM_WRITE_SIZE && block.offset + block.length <= image.len()
        },
{
    lemma_joined_blocks(image, block_count(image.len() as int));
    assert(image.take(image.len() as int) =~= image);
}

proof fn lemma_joined_packets(image: Seq<u8>, block: Block, count: int)
    requires
        block.offset + block.length <= image.len(),
        0 <= count <= packet_count(block.length as int),
    ensures
        joined_packets(image, block, count) == block_bytes(image, block).take(
            if count * WRITE_FRAME_PAYLOAD_SIZE < block.length {
                count * WRITE_FRAME_PAYLOAD_SIZE
            } else {
                block.length as int
            },
        ),
    decreases count,
{
    if count > 0 {
        lemma_joined_packets(image, block, count - 1);
        let bytes = block_bytes(image, block);
        let start = (count - 1) * WRITE_FRAME_PAYLOAD_SIZE;
        let end = if count * WRITE_FRAME_PAYLOAD_SIZE < block.length {
            count * WRITE_FRAME_PAYLOAD_SIZE
        } else {
            block.length as int
        };
        assert(joined_packets(image, block, count) =~= bytes.take(end));
    }
}

/// The image bytes in the write-data frames of a block, one behind the other, are the block.
/// Every frame holds at least one of them, and fits on a classical CAN bus.
pub proof fn law_packets_make_up_the_block(image: Seq<u8>, block: Block, packet: int)
    requires
        block.offset + block.length <= image.len(),
    ensures
        joined_packets(image, block, packet_count(block.length as int)) == block_bytes(
            image,
            block,
        ),
        0 <= packet < packet_count(block.length as int) ==> 2 <= packet_frame(
            image,
            block,
            packet,
        ).len() <= 8,
{
    lemma_joined_packets(image, block, packet_count(block.length as int));
    assert(block_bytes(image, block).take(block.length as int) =~= block_bytes(image, block));
}

/// The write-data frames of a block are numbered from zero, and no number comes twice.
pub proof fn law_sequence_numbers_are_distinct(block: Block, first: int, second: int)
    requires
        block.length <= MAXIMUM_WRITE_SIZE,
        0 <= first < packet_count(block.length as int),
        0 <= second < packet_count(block.length as int),
        packet_sequence(first) == packet_sequence(second),
    ensures
        first == second,
        packet_sequence(first) == first,
{
}

/// An image that fits in the application region is written to the application region of the
/// inactive bank and nowhere else, each block right behind the one before it.
pub proof fn law_blocks_stay_in_the_inactive_bank(total: int, index: int)
    requires
        0 <= total <= crate::protocol::MAXIMUM_IMAGE_SIZE,
        0 <= index < block_count(total),
    ensures
        ({
            let block = block_at(total, index);
            &&& block_address(block) == INACTIVE_APPLICATION_ADDRESS + index * MAXIMUM_WRITE_SIZE
            &&& block_address(block) + block.length <= INACTIVE_APPLICATION_ADDRESS
                + crate::protocol::MAXIMUM_IMAGE_SIZE
            &&& index + 1 < block_count(total) ==> block_address(block) + block.length
                == block_address(block_at(total, index + 1))
        }),
{
}

/// What is reported behind a block is how many bytes are written by then: those up to the end of
/// the block, and behind the last block all of them.
pub proof fn law_progress_is_what_has_been_written(total: int, index: int)
    requires
        0 <= total <= usize::MAX,
        0 <= index < block_count(total),
    ensures
        ({
            let block = block_at(total, index);
            let end = block.offset + block.length;
            &&& write_steps(total)[2 * index] == Step::Write(block)
            &&& write_steps(total)[2 * index + 1] == Step::Report(
                Stage::Programming { completed: end as usize, total: total as usize },
            )
            &&& end <= total
            &&& index == block_count(total) - 1 ==> end == total
        }),
{
    assert((2 * index) / 2 == index && (2 * index + 1) / 2 == index);
}

/// An image that a start-update command can announce does not run past the last address.
pub proof fn law_update_addresses_do_not_wrap(total: int, index: int)
    requires
        0 <= total <= MAXIMUM_UPDATE_SIZE,
        0 <= index < block_count(total),
    ensures
        ({
            let block = block_at(total, index);
            block_address(block) == INACTIVE_APPLICATION_ADDRESS + block.offset
        }),
{
}

/// Every request fits on a classical CAN bus.
pub proof fn law_requests_fit_in_a_frame(command: Command, length: int, crc: u32, block: Block)
    ensures
        command.spec_request(length, crc) matches Ok(request) ==> 1 <= request.len() <= 8
            && request[0] == command.spec_opcode(),
        write_request(block).len() == 7,
{
}

} // verus!
