//! A session: an operation that is carried out with the bootloader, action by action.
//!
//! A session says what is to be done next, is told what came of it, and says what is to be done
//! then, until it is finished. It does nothing itself: who drives it owns the bus and the clock.

use crate::can::CanFrame;
use crate::flash::job::{
    Action, Cause, Cursor, Event, ExchangeState, FlashError, Job, Phase, Route, Turn, WriteState,
};
use crate::flash::plan::{
    build_packet, build_write_request, Block, Command, Step, BOOT_DELAY, COMMAND_TIMEOUT,
    MAXIMUM_PACKETS, MAX_ATTEMPTS, MAX_WRITE_PACKET_ATTEMPTS, PACKET_TIMEOUT, RETRY_DELAY,
};
use crate::flash::reply::{
    frame_is_response, read_command_status, read_crc, read_info, read_packet_status, AckStatus,
};
use crate::protocol::{WRITE_FRAME_PAYLOAD_SIZE, WRITE_MEMORY};
use crate::types::BootInfo;
use vstd::prelude::*;

verus! {

/// An operation in progress.
#[derive(Debug)]
pub struct Session<'a> {
    route: Route,
    image: &'a [u8],
    crc: u32,
    plan: Vec<Step>,
    cursor: Cursor,
}

impl<'a> Session<'a> {
    /// What the session works on.
    pub closed spec fn job(&self) -> Job {
        Job { route: self.route@, image: self.image@, crc: self.crc, plan: self.plan@ }
    }

    /// Where the session stands.
    pub closed spec fn cursor(&self) -> Cursor {
        self.cursor
    }

    #[verifier::type_invariant]
    spec fn is_valid(&self) -> bool {
        self.job().is_valid() && self.job().cursor_fits(self.cursor)
    }

    /// A session that has not begun.
    pub(crate) fn new(route: Route, image: &'a [u8], crc: u32, plan: Vec<Step>) -> (session:
        Session<'a>)
        requires
            (Job { route: route@, image: image@, crc, plan: plan@ }).is_valid(),
        ensures
            session.job() == (Job { route: route@, image: image@, crc, plan: plan@ }),
            session.cursor() == Job::start(),
    {
        Session {
            route,
            image,
            crc,
            plan,
            cursor: Cursor { index: 0, phase: Phase::Ready, info: None },
        }
    }

    fn attempt_failed(&self, command: Command, attempt: u8, cause: Cause) -> (turn: Turn)
        ensures
            turn@ == self.job().attempt_failed(command, attempt, cause),
    {
        if attempt < command.attempts() {
            Turn::Go {
                phase: Phase::Exchanging { command, attempt, state: ExchangeState::BackingOff },
                action: Action::Sleep(RETRY_DELAY),
            }
        } else {
            Turn::Fail(cause)
        }
    }

    fn begin_attempt(&self, command: Command, attempt: u8) -> (turn: Turn)
        ensures
            turn@ == self.job().begin_attempt(command, attempt),
    {
        match command.request(self.image.len(), self.crc) {
            Err(_) => self.attempt_failed(command, attempt, Cause::ImageTooLong),
            Ok(_) => Turn::Go {
                phase: Phase::Exchanging { command, attempt, state: ExchangeState::Clearing },
                action: Action::Clear,
            },
        }
    }

    fn acknowledged(&self, command: Command, attempt: u8) -> (turn: Turn)
        ensures
            turn@ == self.job().acknowledged(command, attempt),
    {
        match command.response_length() {
            None => Turn::Done { info: None },
            Some(_) => Turn::Go {
                phase: Phase::Exchanging {
                    command,
                    attempt,
                    state: ExchangeState::AwaitingResponse,
                },
                action: Action::Wait(COMMAND_TIMEOUT),
            },
        }
    }

    fn responded(&self, command: Command, data: &[u8]) -> (turn: Turn)
        requires
            command.response_length() matches Some(length) ==> data@.len() >= length,
        ensures
            turn@ == self.job().responded(command, data@),
    {
        match command {
            Command::GetVersion => Turn::Done { info: Some(read_info(data)) },
            Command::ComputeCrc => {
                let returned: u32 = read_crc(data);
                if returned == self.crc {
                    Turn::Done { info: None }
                } else {
                    Turn::Fail(Cause::CrcMismatch { returned, expected: self.crc })
                }
            },
            _ => Turn::Done { info: None },
        }
    }

    fn exchange(&self, command: Command, attempt: u8, state: ExchangeState, event: &Event) -> (turn:
        Turn)
        requires
            attempt < 0xFF,
        ensures
            turn@ == self.job().exchange(command, attempt, state, event@),
    {
        let waiting: Turn = Turn::Go {
            phase: Phase::Exchanging { command, attempt, state },
            action: Action::KeepWaiting,
        };
        match state {
            ExchangeState::Clearing => {
                if let Event::Failed = event {
                    return self.attempt_failed(command, attempt, Cause::Action);
                }
                match self.route.request {
                    Err(error) => self.attempt_failed(command, attempt, Cause::RequestId(error)),
                    Ok(id) => match command.request(self.image.len(), self.crc) {
                        Err(_) => self.attempt_failed(command, attempt, Cause::ImageTooLong),
                        Ok(data) => Turn::Go {
                            phase: Phase::Exchanging {
                                command,
                                attempt,
                                state: ExchangeState::Sending,
                            },
                            action: Action::Send(CanFrame { id, data }),
                        },
                    },
                }
            },
            ExchangeState::Sending => {
                if let Event::Failed = event {
                    return self.attempt_failed(command, attempt, Cause::Action);
                }
                match self.route.response {
                    Err(error) => self.attempt_failed(command, attempt, Cause::ResponseId(error)),
                    Ok(_) => Turn::Go {
                        phase: Phase::Exchanging {
                            command,
                            attempt,
                            state: ExchangeState::AwaitingAck,
                        },
                        action: Action::Wait(command.timeout()),
                    },
                }
            },
            ExchangeState::AwaitingAck => match (event, self.route.response) {
                (Event::Failed, _) => self.attempt_failed(command, attempt, Cause::Action),
                (Event::Expired, _) => self.attempt_failed(
                    command,
                    attempt,
                    Cause::AckTimeout { command: command.opcode() },
                ),
                (Event::Received(frame), Ok(id)) => match read_command_status(
                    frame,
                    id,
                    command.opcode(),
                ) {
                    None => waiting,
                    Some(AckStatus::Nack) => self.attempt_failed(
                        command,
                        attempt,
                        Cause::Rejected { command: command.opcode() },
                    ),
                    Some(AckStatus::Ack) => self.acknowledged(command, attempt),
                },
                _ => waiting,
            },
            ExchangeState::AwaitingResponse => match (
                event,
                self.route.response,
                command.response_length(),
            ) {
                (Event::Failed, _, _) => self.attempt_failed(command, attempt, Cause::Action),
                (Event::Expired, _, _) => self.attempt_failed(
                    command,
                    attempt,
                    Cause::ResponseTimeout { command: command.opcode() },
                ),
                (Event::Received(frame), Ok(id), Some(length)) => if frame_is_response(
                    frame,
                    id,
                    command.opcode(),
                    length,
                ) {
                    self.responded(command, frame.data.as_slice())
                } else {
                    waiting
                },
                _ => waiting,
            },
            ExchangeState::BackingOff => self.begin_attempt(command, attempt + 1),
        }
    }

    fn block_rejected(&self, block: Block, round: u8) -> (turn: Turn)
        ensures
            turn@ == self.job().block_rejected(block, round),
    {
        if round < MAX_ATTEMPTS {
            Turn::Go {
                phase: Phase::Writing { block, round, progress: WriteState::BackingOff },
                action: Action::Sleep(RETRY_DELAY),
            }
        } else {
            Turn::Fail(Cause::BlockRejected)
        }
    }

    fn send_request(&self, block: Block, round: u8, attempt: u8) -> (turn: Turn)
        requires
            self.job().has_block(block),
        ensures
            turn@ == self.job().send_request(block, round, attempt),
    {
        match self.route.request {
            Err(error) => Turn::Fail(Cause::RequestId(error)),
            Ok(id) => Turn::Go {
                phase: Phase::Writing {
                    block,
                    round,
                    progress: WriteState::SendingRequest { attempt },
                },
                action: Action::Send(CanFrame { id, data: build_write_request(block) }),
            },
        }
    }

    fn send_packet(&self, block: Block, round: u8, packet: usize, attempt: u8) -> (turn: Turn)
        requires
            self.job().has_block(block),
            packet * WRITE_FRAME_PAYLOAD_SIZE < block.length,
        ensures
            turn@ == self.job().send_packet(block, round, packet, attempt),
    {
        match self.route.write_data {
            Err(error) => Turn::Fail(Cause::WriteDataId(error)),
            Ok(id) => Turn::Go {
                phase: Phase::Writing {
                    block,
                    round,
                    progress: WriteState::SendingPacket { packet, attempt },
                },
                action: Action::Send(
                    CanFrame { id, data: build_packet(self.image, block, packet) },
                ),
            },
        }
    }

    fn await_answer(&self, block: Block, round: u8, state: WriteState, time: u64) -> (turn: Turn)
        ensures
            turn@ == self.job().await_answer(block, round, state, time),
    {
        match self.route.response {
            Err(error) => Turn::Fail(Cause::ResponseId(error)),
            Ok(_) => Turn::Go {
                phase: Phase::Writing { block, round, progress: state },
                action: Action::Wait(time),
            },
        }
    }

    fn next_packet(&self, block: Block, round: u8, packet: usize) -> (turn: Turn)
        requires
            self.job().has_block(block),
            packet <= MAXIMUM_PACKETS,
        ensures
            turn@ == self.job().next_packet(block, round, packet as int),
    {
        if packet * WRITE_FRAME_PAYLOAD_SIZE < block.length {
            self.send_packet(block, round, packet, 1)
        } else {
            self.await_answer(block, round, WriteState::AwaitingFinalAck, COMMAND_TIMEOUT)
        }
    }

    fn write(&self, block: Block, round: u8, state: WriteState, event: &Event) -> (turn: Turn)
        requires
            self.job().has_block(block),
            self.job().phase_fits(
                Step::Write(block),
                Phase::Writing { block, round, progress: state },
            ),
        ensures
            turn@ == self.job().write(block, round, state, event@),
    {
        let waiting: Turn = Turn::Go {
            phase: Phase::Writing { block, round, progress: state },
            action: Action::KeepWaiting,
        };
        match state {
            WriteState::Clearing => {
                if let Event::Failed = event {
                    return Turn::Fail(Cause::Action);
                }
                self.send_request(block, round, 1)
            },
            WriteState::SendingRequest { attempt } => {
                if let Event::Failed = event {
                    return Turn::Fail(Cause::Action);
                }
                self.await_answer(
                    block,
                    round,
                    WriteState::AwaitingRequestAck { attempt },
                    COMMAND_TIMEOUT,
                )
            },
            WriteState::AwaitingRequestAck { attempt } => match (event, self.route.response) {
                (Event::Failed, _) => Turn::Fail(Cause::Action),
                (Event::Expired, _) => if attempt < MAX_WRITE_PACKET_ATTEMPTS {
                    Turn::Go {
                        phase: Phase::Writing {
                            block,
                            round,
                            progress: WriteState::RequestBackingOff { attempt },
                        },
                        action: Action::Sleep(RETRY_DELAY),
                    }
                } else {
                    Turn::Fail(Cause::WriteRequestTimeout)
                },
                (Event::Received(frame), Ok(id)) => match read_command_status(
                    frame,
                    id,
                    WRITE_MEMORY,
                ) {
                    None => waiting,
                    Some(AckStatus::Nack) => self.block_rejected(block, round),
                    Some(AckStatus::Ack) => self.next_packet(block, round, 0),
                },
                _ => waiting,
            },
            WriteState::RequestBackingOff { attempt } => self.send_request(
                block,
                round,
                attempt + 1,
            ),
            WriteState::SendingPacket { packet, attempt } => {
                if let Event::Failed = event {
                    return Turn::Fail(Cause::Action);
                }
                self.await_answer(
                    block,
                    round,
                    WriteState::AwaitingPacketAck { packet, attempt },
                    PACKET_TIMEOUT,
                )
            },
            WriteState::AwaitingPacketAck { packet, attempt } => {
                let sequence: u8 = (packet % 0x100) as u8;
                match (event, self.route.response) {
                    (Event::Failed, _) => Turn::Fail(Cause::Action),
                    (Event::Expired, _) => if attempt < MAX_WRITE_PACKET_ATTEMPTS {
                        Turn::Go {
                            phase: Phase::Writing {
                                block,
                                round,
                                progress: WriteState::PacketBackingOff { packet, attempt },
                            },
                            action: Action::Sleep(RETRY_DELAY),
                        }
                    } else {
                        Turn::Fail(Cause::PacketTimeout { sequence })
                    },
                    (Event::Received(frame), Ok(id)) => match read_packet_status(
                        frame,
                        id,
                        sequence,
                    ) {
                        None => waiting,
                        Some(AckStatus::Nack) => self.block_rejected(block, round),
                        Some(AckStatus::Ack) => self.next_packet(block, round, packet + 1),
                    },
                    _ => waiting,
                }
            },
            WriteState::PacketBackingOff { packet, attempt } => self.send_packet(
                block,
                round,
                packet,
                attempt + 1,
            ),
            WriteState::AwaitingFinalAck => match (event, self.route.response) {
                (Event::Failed, _) => Turn::Fail(Cause::Action),
                (Event::Expired, _) => Turn::Fail(Cause::WriteTimeout),
                (Event::Received(frame), Ok(id)) => match read_command_status(
                    frame,
                    id,
                    WRITE_MEMORY,
                ) {
                    None => waiting,
                    Some(AckStatus::Nack) => self.block_rejected(block, round),
                    Some(AckStatus::Ack) => Turn::Done { info: None },
                },
                _ => waiting,
            },
            WriteState::BackingOff => Turn::Go {
                phase: Phase::Writing { block, round: round + 1, progress: WriteState::Clearing },
                action: Action::Clear,
            },
        }
    }

    fn enter(&self, step: Step) -> (turn: Turn)
        ensures
            turn@ == self.job().enter(step),
    {
        match step {
            Step::Report(stage) => Turn::Go {
                phase: Phase::Reporting,
                action: Action::Report(stage),
            },
            Step::RequestBootloader => match self.route.boot_request {
                Err(error) => Turn::Fail(Cause::BootRequestId(error)),
                Ok(id) => match &self.route.boot_payload {
                    Err(error) => Turn::Fail(Cause::BootPayload(*error)),
                    Ok(payload) => Turn::Go {
                        phase: Phase::RequestingBootloader,
                        action: Action::Send(CanFrame { id, data: payload.clone() }),
                    },
                },
            },
            Step::BootDelay => Turn::Go {
                phase: Phase::Delaying,
                action: Action::Sleep(BOOT_DELAY),
            },
            Step::Exchange(command) => self.begin_attempt(command, 1),
            Step::Write(block) => Turn::Go {
                phase: Phase::Writing { block, round: 1, progress: WriteState::Clearing },
                action: Action::Clear,
            },
        }
    }

    fn react(&self, step: Step, phase: Phase, event: &Event) -> (turn: Turn)
        requires
            self.job().phase_fits(step, phase),
            step matches Step::Write(block) ==> self.job().has_block(block),
        ensures
            turn@ == self.job().react(phase, event@),
    {
        match phase {
            Phase::Reporting | Phase::RequestingBootloader => {
                if let Event::Failed = event {
                    return Turn::Fail(Cause::Action);
                }
                Turn::Done { info: None }
            },
            Phase::Exchanging { command, attempt, state } => self.exchange(
                command,
                attempt,
                state,
                event,
            ),
            Phase::Writing { block, round, progress } => self.write(block, round, progress, event),
            _ => Turn::Done { info: None },
        }
    }

    /// Tells the session what came of the last action, and gives the next one. A session that has
    /// not begun begins, whatever it is told; one that is finished stays as it is.
    pub fn advance(&mut self, event: Event) -> (action: Action)
        ensures
            final(self).job() == old(self).job(),
            (final(self).cursor(), action@) == old(self).job().advance(
                old(self).cursor(),
                event@,
            ),
    {
        proof {
            use_type_invariant(&*self);
            self.job().law_cursor_stays_valid(self.cursor, event@);
        }
        let ghost job = self.job();
        let ghost outcome = job.advance(self.cursor, event@);
        let mut index: usize = self.cursor.index;
        let mut info: Option<BootInfo> = self.cursor.info;
        let mut turn: Turn = match self.cursor.phase {
            Phase::Finished { result } => {
                return Action::Finish(result);
            },
            Phase::Ready => self.enter(self.plan[index]),
            phase => {
                let step: Step = self.plan[index];
                assert(job.plan[index as int] == step);
                self.react(step, phase, &event)
            },
        };
        loop
            invariant
                self.job() == job,
                index < job.plan.len(),
                job.plan.len() <= usize::MAX,
                job.settle(index as int, info, turn@) == outcome,
                job.cursor_fits(outcome.0),
                self == old(self),
                job.is_valid(),
                old(self).job() == job,
                outcome == job.advance(old(self).cursor(), event@),
            decreases job.plan.len() - index,
        {
            match turn {
                Turn::Go { phase, action } => {
                    self.cursor = Cursor { index, phase, info };
                    return action;
                },
                Turn::Fail(cause) => {
                    let result: Result<Option<BootInfo>, FlashError> = Err(
                        FlashError { step: self.plan[index], cause },
                    );
                    self.cursor = Cursor { index, phase: Phase::Finished { result }, info };
                    return Action::Finish(result);
                },
                Turn::Done { info: news } => {
                    if let Some(_) = news {
                        info = news;
                    }
                    if index + 1 == self.plan.len() {
                        let result: Result<Option<BootInfo>, FlashError> = Ok(info);
                        self.cursor = Cursor { index, phase: Phase::Finished { result }, info };
                        return Action::Finish(result);
                    }
                    index += 1;
                    turn = self.enter(self.plan[index]);
                },
            }
        }
    }
}

} // verus!
