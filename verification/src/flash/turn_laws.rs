//! What a session does next, event by event.

use crate::can::FrameView;
use crate::flash::frame_laws::{
    four_bytes, law_a_write_command_names_address_and_length, law_acknowledgements_are_two_bytes,
    law_packets_are_acknowledged_by_number, law_responses_report, smaller,
};
use crate::flash::job::{
    route_of, ActionView, Cause, Cursor, EventView, ExchangeState, FlashError, Job, Phase,
    WriteState,
};
use crate::flash::plan::{
    bootloader_steps, packet_frame, update_steps, write_request, Block, Command, Step,
};
use crate::flash::{plain_job, update_job};
use crate::types::{boot_payload, identifier, BootInfo, EcuDefinition, Firmware};
use vstd::prelude::*;

verus! {

/// Whether the session goes on in its step, with this phase and action.
pub open spec fn goes(
    job: Job,
    cursor: Cursor,
    event: EventView,
    phase: Phase,
    action: ActionView,
) -> bool {
    job.advance(cursor, event) == (
        Cursor { index: cursor.index, phase, info: cursor.info },
        action,
    )
}

/// Whether the session waits on, and changes nothing.
pub open spec fn waits_on(job: Job, cursor: Cursor, event: EventView) -> bool {
    job.advance(cursor, event) == (cursor, ActionView::KeepWaiting)
}

/// Whether the session ends, at a step and with what is then known of the bootloader.
pub open spec fn ends(
    job: Job,
    cursor: Cursor,
    event: EventView,
    info: Option<BootInfo>,
    result: Result<Option<BootInfo>, FlashError>,
) -> bool {
    job.advance(cursor, event) == (
        Cursor { index: cursor.index, phase: Phase::Finished { result }, info },
        ActionView::Finish(result),
    )
}

/// Whether the session ends here, and says which step failed and why.
pub open spec fn gives_up(job: Job, cursor: Cursor, event: EventView, cause: Cause) -> bool {
    ends(
        job,
        cursor,
        event,
        cursor.info,
        Err(FlashError { step: job.plan[cursor.index as int], cause }),
    )
}

/// Whether the step is done, and this is then known of the bootloader: the next step starts, or
/// the session has succeeded.
pub open spec fn is_done(
    job: Job,
    cursor: Cursor,
    event: EventView,
    info: Option<BootInfo>,
) -> bool {
    if cursor.index + 1 < job.plan.len() {
        let next = job.advance(cursor, event).0;
        next.index == cursor.index + 1 && next.info == info
    } else {
        ends(job, cursor, event, info, Ok(info))
    }
}

/// How often a command is tried.
pub open spec fn tries(command: Command) -> int {
    match command {
        Command::StartApplication | Command::SetBaudRate { .. } | Command::SwapBanks => 1,
        _ => 3,
    }
}

/// The byte that stands for a command.
pub open spec fn code(command: Command) -> u8 {
    match command {
        Command::Ping | Command::BootPing => 0xA1,
        Command::GetVersion => 0xA2,
        Command::StartApplication => 0xA4,
        Command::SetBaudRate { .. } => 0xAA,
        Command::StartUpdate => 0xA9,
        Command::Erase => 0xA6,
        Command::ComputeCrc => 0xA8,
        Command::SwapBanks => 0xA7,
    }
}

/// Whether an attempt at a command fails: the command is tried again after a tenth of a second, or
/// given up where it has been tried as often as it is to be.
pub open spec fn fails(
    job: Job,
    cursor: Cursor,
    event: EventView,
    command: Command,
    attempt: int,
    cause: Cause,
) -> bool {
    if attempt < tries(command) {
        goes(
            job,
            cursor,
            event,
            Phase::Exchanging { command, attempt: attempt as u8, state: ExchangeState::BackingOff },
            ActionView::Sleep(100),
        )
    } else {
        gives_up(job, cursor, event, cause)
    }
}

/// How an attempt at a command starts: what was received before is dropped.
pub open spec fn starts(
    job: Job,
    cursor: Cursor,
    event: EventView,
    command: Command,
    attempt: int,
) -> bool {
    if command is StartUpdate && job.image.len() > 0xFF_FFFF {
        fails(job, cursor, event, command, attempt, Cause::ImageTooLong)
    } else {
        goes(
            job,
            cursor,
            event,
            Phase::Exchanging { command, attempt: attempt as u8, state: ExchangeState::Clearing },
            ActionView::Clear,
        )
    }
}

/// A command is sent when what was received before is dropped, and its acknowledgement waited for
/// when it is sent: half a minute for an erasure, and five seconds for any other command.
pub proof fn law_a_command_is_sent_and_waited_for(
    job: Job,
    cursor: Cursor,
    event: EventView,
    command: Command,
    attempt: u8,
    state: ExchangeState,
)
    requires
        job.is_valid(),
        job.cursor_fits(cursor),
        cursor.phase == (Phase::Exchanging { command, attempt, state }),
    ensures
        state is Clearing ==> {
            if event is Failed {
                fails(job, cursor, event, command, attempt as int, Cause::Action)
            } else {
                match (job.route.request, command.spec_request(job.image.len() as int, job.crc)) {
                    (Err(error), _) => fails(
                        job,
                        cursor,
                        event,
                        command,
                        attempt as int,
                        Cause::RequestId(error),
                    ),
                    (Ok(id), Ok(data)) => goes(
                        job,
                        cursor,
                        event,
                        Phase::Exchanging { command, attempt, state: ExchangeState::Sending },
                        ActionView::Send(FrameView { id, data }),
                    ),
                    _ => true,
                }
            }
        },
        state is Sending ==> {
            if event is Failed {
                fails(job, cursor, event, command, attempt as int, Cause::Action)
            } else {
                match job.route.response {
                    Err(error) => fails(
                        job,
                        cursor,
                        event,
                        command,
                        attempt as int,
                        Cause::ResponseId(error),
                    ),
                    Ok(_) => goes(
                        job,
                        cursor,
                        event,
                        Phase::Exchanging { command, attempt, state: ExchangeState::AwaitingAck },
                        ActionView::Wait(
                            if command is Erase {
                                30_000
                            } else {
                                5_000
                            },
                        ),
                    ),
                }
            }
        },
        state is BackingOff ==> starts(job, cursor, event, command, attempt + 1),
{
    reveal_with_fuel(Job::settle, 3);
}

/// A command that is waited for is done, or responded to, when it is acknowledged; it fails when it
/// is rejected, when the time is over or when nothing can be received. Anything else is waited
/// over.
pub proof fn law_an_acknowledgement_is_waited_for(
    job: Job,
    cursor: Cursor,
    event: EventView,
    command: Command,
    attempt: u8,
    id: u32,
)
    requires
        job.is_valid(),
        job.cursor_fits(cursor),
        cursor.phase == (Phase::Exchanging { command, attempt, state: ExchangeState::AwaitingAck }),
        job.route.response matches Ok(known) && known == id,
    ensures
        match event {
            EventView::Failed => fails(job, cursor, event, command, attempt as int, Cause::Action),
            EventView::Expired => fails(
                job,
                cursor,
                event,
                command,
                attempt as int,
                Cause::AckTimeout { command: code(command) },
            ),
            EventView::Received(frame) => if frame.id == id && frame.data == seq![
                0x5Au8,
                code(command),
            ] {
                if command is GetVersion || command is ComputeCrc {
                    goes(
                        job,
                        cursor,
                        event,
                        Phase::Exchanging {
                            command,
                            attempt,
                            state: ExchangeState::AwaitingResponse,
                        },
                        ActionView::Wait(5_000),
                    )
                } else {
                    is_done(job, cursor, event, cursor.info)
                }
            } else if frame.id == id && frame.data == seq![0xA5u8, code(command)] {
                fails(
                    job,
                    cursor,
                    event,
                    command,
                    attempt as int,
                    Cause::Rejected { command: code(command) },
                )
            } else {
                waits_on(job, cursor, event)
            },
            _ => waits_on(job, cursor, event),
        },
{
    if let EventView::Received(frame) = event {
        law_acknowledgements_are_two_bytes(frame, id, code(command));
        assert(seq![0x5Au8, code(command)][0] == 0x5A);
        assert(seq![0xA5u8, code(command)][0] == 0xA5);
    }
    job.lemma_advance(cursor, event);
    reveal_with_fuel(Job::settle, 3);
}

/// A response that is waited for tells the version and the state of the banks, or the CRC, which
/// has to be that of the image: another one ends the session at once.
pub proof fn law_a_response_is_waited_for(
    job: Job,
    cursor: Cursor,
    event: EventView,
    command: Command,
    attempt: u8,
    id: u32,
)
    requires
        job.is_valid(),
        job.cursor_fits(cursor),
        cursor.phase == (Phase::Exchanging {
            command,
            attempt,
            state: ExchangeState::AwaitingResponse,
        }),
        job.route.response matches Ok(known) && known == id,
    ensures
        command is GetVersion || command is ComputeCrc,
        match event {
            EventView::Failed => fails(job, cursor, event, command, attempt as int, Cause::Action),
            EventView::Expired => fails(
                job,
                cursor,
                event,
                command,
                attempt as int,
                Cause::ResponseTimeout { command: code(command) },
            ),
            EventView::Received(frame) => if command is GetVersion && frame.id == id
                && frame.data.len() >= 4 && frame.data[0] == 0xA2 {
                is_done(
                    job,
                    cursor,
                    event,
                    Some(
                        BootInfo {
                            version: frame.data[1],
                            bank_swap_enabled: frame.data[2] != 0,
                        },
                    ),
                )
            } else if command is ComputeCrc && frame.id == id && frame.data.len() >= 5
                && frame.data[0] == 0xA8 {
                if four_bytes(frame.data, 1) == job.crc {
                    is_done(job, cursor, event, cursor.info)
                } else {
                    gives_up(
                        job,
                        cursor,
                        event,
                        Cause::CrcMismatch {
                            returned: four_bytes(frame.data, 1) as u32,
                            expected: job.crc,
                        },
                    )
                }
            } else {
                waits_on(job, cursor, event)
            },
            _ => waits_on(job, cursor, event),
        },
{
    if let EventView::Received(frame) = event {
        law_responses_report(frame, id, code(command), 4);
    }
    job.lemma_advance(cursor, event);
    reveal_with_fuel(Job::settle, 3);
}

/// Whether a block is rejected: it is started again after a tenth of a second, or given up in its
/// third round.
pub open spec fn is_rejected(
    job: Job,
    cursor: Cursor,
    event: EventView,
    block: Block,
    round: u8,
) -> bool {
    if round < 3 {
        goes(
            job,
            cursor,
            event,
            Phase::Writing { block, round, progress: WriteState::BackingOff },
            ActionView::Sleep(100),
        )
    } else {
        gives_up(job, cursor, event, Cause::BlockRejected)
    }
}

/// Whether the write command of a block is sent.
pub open spec fn sends_write_command(
    job: Job,
    cursor: Cursor,
    event: EventView,
    block: Block,
    round: int,
    attempt: int,
) -> bool {
    match job.route.request {
        Err(error) => gives_up(job, cursor, event, Cause::RequestId(error)),
        Ok(id) => goes(
            job,
            cursor,
            event,
            Phase::Writing {
                block,
                round: round as u8,
                progress: WriteState::SendingRequest { attempt: attempt as u8 },
            },
            ActionView::Send(FrameView { id, data: write_request(block) }),
        ),
    }
}

/// Whether a write-data frame is sent.
pub open spec fn sends_write_data(
    job: Job,
    cursor: Cursor,
    event: EventView,
    block: Block,
    round: u8,
    packet: int,
    attempt: int,
) -> bool {
    match job.route.write_data {
        Err(error) => gives_up(job, cursor, event, Cause::WriteDataId(error)),
        Ok(id) => goes(
            job,
            cursor,
            event,
            Phase::Writing {
                block,
                round,
                progress: WriteState::SendingPacket {
                    packet: packet as usize,
                    attempt: attempt as u8,
                },
            },
            ActionView::Send(FrameView { id, data: packet_frame(job.image, block, packet) }),
        ),
    }
}

/// Whether an answer is waited for.
pub open spec fn waits_for(
    job: Job,
    cursor: Cursor,
    event: EventView,
    block: Block,
    round: u8,
    progress: WriteState,
    time: u64,
) -> bool {
    match job.route.response {
        Err(error) => gives_up(job, cursor, event, Cause::ResponseId(error)),
        Ok(_) => goes(
            job,
            cursor,
            event,
            Phase::Writing { block, round, progress },
            ActionView::Wait(time),
        ),
    }
}

/// Whether the block goes on with a write-data frame, where it has one of this number, or with the
/// wait for the answer to the whole.
pub open spec fn continues(
    job: Job,
    cursor: Cursor,
    event: EventView,
    block: Block,
    round: u8,
    packet: int,
) -> bool {
    if 7 * packet < block.length {
        sends_write_data(job, cursor, event, block, round, packet, 1)
    } else {
        waits_for(job, cursor, event, block, round, WriteState::AwaitingFinalAck, 5_000)
    }
}

/// A block is sent as its write command, which is waited for five seconds, and its write-data
/// frames, which are waited for half a second each. What stays unanswered is sent again after a
/// tenth of a second, and a block that is started again is started from its write command.
pub proof fn law_a_block_is_sent_and_waited_for(
    job: Job,
    cursor: Cursor,
    event: EventView,
    block: Block,
    round: u8,
    progress: WriteState,
)
    requires
        job.is_valid(),
        job.cursor_fits(cursor),
        cursor.phase == (Phase::Writing { block, round, progress }),
    ensures
        match progress {
            WriteState::Clearing => if event is Failed {
                gives_up(job, cursor, event, Cause::Action)
            } else {
                sends_write_command(job, cursor, event, block, round as int, 1)
            },
            WriteState::SendingRequest { attempt } => if event is Failed {
                gives_up(job, cursor, event, Cause::Action)
            } else {
                waits_for(
                    job,
                    cursor,
                    event,
                    block,
                    round,
                    WriteState::AwaitingRequestAck { attempt },
                    5_000,
                )
            },
            WriteState::RequestBackingOff { attempt } => sends_write_command(
                job,
                cursor,
                event,
                block,
                round as int,
                attempt + 1,
            ),
            WriteState::SendingPacket { packet, attempt } => if event is Failed {
                gives_up(job, cursor, event, Cause::Action)
            } else {
                waits_for(
                    job,
                    cursor,
                    event,
                    block,
                    round,
                    WriteState::AwaitingPacketAck { packet, attempt },
                    500,
                )
            },
            WriteState::PacketBackingOff { packet, attempt } => sends_write_data(
                job,
                cursor,
                event,
                block,
                round,
                packet as int,
                attempt + 1,
            ),
            WriteState::BackingOff => goes(
                job,
                cursor,
                event,
                Phase::Writing {
                    block,
                    round: (round + 1) as u8,
                    progress: WriteState::Clearing,
                },
                ActionView::Clear,
            ),
            _ => true,
        },
{
    reveal_with_fuel(Job::settle, 3);
}

/// An answer to a part of a block lets the block go on where it acknowledges the part, and starts
/// it again where it rejects it. A write command and a write-data frame are sent four times before
/// they are given up for want of an answer. Anything else is waited over.
pub proof fn law_answers_to_a_block_are_waited_for(
    job: Job,
    cursor: Cursor,
    event: EventView,
    block: Block,
    round: u8,
    progress: WriteState,
    id: u32,
)
    requires
        job.is_valid(),
        job.cursor_fits(cursor),
        cursor.phase == (Phase::Writing { block, round, progress }),
        job.route.response matches Ok(known) && known == id,
    ensures
        match progress {
            WriteState::AwaitingRequestAck { attempt } => match event {
                EventView::Failed => gives_up(job, cursor, event, Cause::Action),
                EventView::Expired => if attempt < 4 {
                    goes(
                        job,
                        cursor,
                        event,
                        Phase::Writing {
                            block,
                            round,
                            progress: WriteState::RequestBackingOff { attempt },
                        },
                        ActionView::Sleep(100),
                    )
                } else {
                    gives_up(job, cursor, event, Cause::WriteRequestTimeout)
                },
                EventView::Received(frame) => if frame.id == id && frame.data == seq![
                    0x5Au8,
                    0xA5u8,
                ] {
                    continues(job, cursor, event, block, round, 0)
                } else if frame.id == id && frame.data == seq![0xA5u8, 0xA5u8] {
                    is_rejected(job, cursor, event, block, round)
                } else {
                    waits_on(job, cursor, event)
                },
                _ => waits_on(job, cursor, event),
            },
            WriteState::AwaitingPacketAck { packet, attempt } => match event {
                EventView::Failed => gives_up(job, cursor, event, Cause::Action),
                EventView::Expired => if attempt < 4 {
                    goes(
                        job,
                        cursor,
                        event,
                        Phase::Writing {
                            block,
                            round,
                            progress: WriteState::PacketBackingOff { packet, attempt },
                        },
                        ActionView::Sleep(100),
                    )
                } else {
                    gives_up(
                        job,
                        cursor,
                        event,
                        Cause::PacketTimeout { sequence: packet as u8 },
                    )
                },
                EventView::Received(frame) => if frame.id == id && frame.data == seq![
                    0x5Au8,
                    0xA5u8,
                    packet as u8,
                ] {
                    continues(job, cursor, event, block, round, packet + 1)
                } else if frame.id == id && frame.data.len() >= 2 && frame.data[0] == 0xA5
                    && frame.data[1] == 0xA5 {
                    is_rejected(job, cursor, event, block, round)
                } else {
                    waits_on(job, cursor, event)
                },
                _ => waits_on(job, cursor, event),
            },
            WriteState::AwaitingFinalAck => match event {
                EventView::Failed => gives_up(job, cursor, event, Cause::Action),
                EventView::Expired => gives_up(job, cursor, event, Cause::WriteTimeout),
                EventView::Received(frame) => if frame.id == id && frame.data == seq![
                    0x5Au8,
                    0xA5u8,
                ] {
                    is_done(job, cursor, event, cursor.info)
                } else if frame.id == id && frame.data == seq![0xA5u8, 0xA5u8] {
                    is_rejected(job, cursor, event, block, round)
                } else {
                    waits_on(job, cursor, event)
                },
                _ => waits_on(job, cursor, event),
            },
            _ => true,
        },
{
    assert(job.plan[cursor.index as int] == Step::Write(block));
    if let EventView::Received(frame) = event {
        law_acknowledgements_are_two_bytes(frame, id, 0xA5);
        assert(seq![0x5Au8, 0xA5u8][0] == 0x5A);
        assert(seq![0xA5u8, 0xA5u8][0] == 0xA5);
        if let WriteState::AwaitingPacketAck { packet, .. } = progress {
            law_packets_are_acknowledged_by_number(frame, id, packet as u8);
            assert(seq![0x5Au8, 0xA5u8, packet as u8][0] == 0x5A);
        }
    }
    job.lemma_advance(cursor, event);
    reveal_with_fuel(Job::settle, 3);
}

/// How a step begins: with a report, with the boot request, with three quarters of a second of
/// waiting for the bootloader, or with dropping what was received before.
pub open spec fn begins(job: Job, next: Cursor, action: ActionView) -> bool {
    let step = job.plan[next.index as int];
    let failed = |cause: Cause|
        {
            let result = Err(FlashError { step, cause });
            next.phase == (Phase::Finished { result }) && action == ActionView::Finish(result)
        };
    match step {
        Step::Report(stage) => next.phase == Phase::Reporting && action == ActionView::Report(
            stage,
        ),
        Step::RequestBootloader => match (job.route.boot_request, job.route.boot_payload) {
            (Err(error), _) => failed(Cause::BootRequestId(error)),
            (_, Err(error)) => failed(Cause::BootPayload(error)),
            (Ok(id), Ok(data)) => next.phase == Phase::RequestingBootloader && action
                == ActionView::Send(FrameView { id, data }),
        },
        Step::BootDelay => next.phase == Phase::Delaying && action == ActionView::Sleep(750),
        Step::Exchange(command) => if command is StartUpdate && job.image.len() > 0xFF_FFFF {
            next.phase == (Phase::Exchanging {
                command,
                attempt: 1,
                state: ExchangeState::BackingOff,
            }) && action == ActionView::Sleep(100)
        } else {
            next.phase == (Phase::Exchanging {
                command,
                attempt: 1,
                state: ExchangeState::Clearing,
            }) && action == ActionView::Clear
        },
        Step::Write(block) => next.phase == (Phase::Writing {
            block,
            round: 1,
            progress: WriteState::Clearing,
        }) && action == ActionView::Clear,
    }
}

/// The first step begins whatever a session is told first, and each step begins when the one
/// before it is done.
pub proof fn law_steps_begin(job: Job, cursor: Cursor, event: EventView)
    requires
        job.is_valid(),
        job.cursor_fits(cursor),
        !(cursor.phase is Finished),
        cursor.phase is Ready || job.advance(cursor, event).0.index != cursor.index,
    ensures
        begins(job, job.advance(cursor, event).0, job.advance(cursor, event).1),
        cursor.phase is Ready ==> job.advance(cursor, event).0.index == cursor.index,
{
    job.lemma_advance(cursor, event);
    job.lemma_enter_fits(job.plan[cursor.index as int]);
}

/// A report and a boot request are done unless they fail, the wait for the bootloader is done in
/// any case, and a session that is finished stays so and says how it ended.
pub proof fn law_plain_steps_are_done(job: Job, cursor: Cursor, event: EventView)
    requires
        job.is_valid(),
        job.cursor_fits(cursor),
    ensures
        cursor.phase is Reporting || cursor.phase is RequestingBootloader ==> if event is Failed {
            gives_up(job, cursor, event, Cause::Action)
        } else {
            is_done(job, cursor, event, cursor.info)
        },
        cursor.phase is Delaying ==> is_done(job, cursor, event, cursor.info),
        cursor.phase matches Phase::Finished { result } ==> job.advance(cursor, event) == (
            cursor,
            ActionView::Finish(result),
        ),
{
    if !(cursor.phase is Finished) {
        job.lemma_advance(cursor, event);
        reveal_with_fuel(Job::settle, 3);
    }
}

/// The identifiers and the boot request of a session are those of its ECU, each from its own part
/// of the definition.
pub proof fn law_a_session_takes_the_route_of_its_ecu(ecu: EcuDefinition)
    ensures
        route_of(ecu).request == identifier(ecu.request_id@),
        route_of(ecu).response == identifier(ecu.response_id@),
        route_of(ecu).write_data == identifier(ecu.write_data_id@),
        route_of(ecu).boot_request == identifier(ecu.application_boot_request_id@),
        route_of(ecu).boot_payload == boot_payload(ecu.application_boot_request_data@),
{
}

/// A session starts ahead of its first step, with nothing known of the bootloader. An operation
/// other than an update goes through its own steps without an image; an update goes through the
/// steps of its image, and carries the bytes of the image and its CRC.
pub proof fn law_operations_have_their_steps(
    ecu: EcuDefinition,
    firmware: Firmware,
    already: bool,
    plan: Seq<Step>,
)
    ensures
        Job::start() == (Cursor { index: 0, phase: Phase::Ready, info: None }),
        plain_job(ecu, plan).route == route_of(ecu),
        plain_job(ecu, plan).plan == plan,
        plain_job(ecu, plan).image.len() == 0,
        update_job(ecu, firmware, already).route == route_of(ecu),
        update_job(ecu, firmware, already).image == firmware.data@,
        update_job(ecu, firmware, already).crc == firmware.crc32,
        update_job(ecu, firmware, already).plan == update_steps(
            firmware.data@.len() as int,
            already,
        ),
        bootloader_steps() == seq![
            Step::RequestBootloader,
            Step::BootDelay,
            Step::Exchange(Command::BootPing),
        ],
{
}

/// What is sent in the course of a block is its write command, which names the place of the block
/// in the inactive bank and its length, or one of its write-data frames, with its number and the
/// seven bytes of the image that it stands for, or what is left of them.
pub proof fn law_what_is_sent_of_a_block(job: Job, cursor: Cursor, event: EventView, block: Block)
    requires
        job.is_valid(),
        job.cursor_fits(cursor),
        job.plan[job.advance(cursor, event).0.index as int] == Step::Write(block),
        0x0810_8000 + block.offset <= u32::MAX,
    ensures
        job.advance(cursor, event).1 matches ActionView::Send(frame) ==> {
            let data = frame.data;
            ||| {
                &&& job.route.request matches Ok(id) && id == frame.id
                &&& data.len() == 7
                &&& data[0] == 0xA5
                &&& four_bytes(data, 1) == 0x0810_8000 + block.offset
                &&& data[5] * 0x100 + data[6] == block.length
            }
            ||| {
                let first = block.offset + 7 * data[0];
                &&& job.route.write_data matches Ok(id) && id == frame.id
                &&& 7 * data[0] < block.length
                &&& data.len() == 1 + smaller(7, block.length - 7 * data[0])
                &&& forall|i: int|
                    0 <= i < data.len() - 1 ==> #[trigger] data[1 + i] == job.image[first + i]
            }
        },
{
    let (next, action) = job.advance(cursor, event);
    job.law_cursor_stays_valid(cursor, event);
    assert(job.has_block(block));
    law_a_write_command_names_address_and_length(block);
    if let ActionView::Send(frame) = action {
        job.lemma_advance(cursor, event);
        job.lemma_enter_fits(job.plan[cursor.index as int]);
        if let Phase::Writing { progress: WriteState::SendingPacket { packet, .. }, .. } =
            next.phase {
            let data = packet_frame(job.image, block, packet as int);
            assert(data[0] == packet);
            assert forall|i: int| 0 <= i < data.len() - 1 implies #[trigger] data[1 + i]
                == job.image[block.offset + 7 * data[0] + i] by {}
        }
    }
}

} // verus!
