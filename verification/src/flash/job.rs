//! What a session does: actions, events and the transitions between them.

use crate::can::{CanFrame, FrameView};
use crate::flash::plan::{
    packet_frame, packet_sequence, write_request, Block, Command, Stage, Step, BOOT_DELAY,
    COMMAND_TIMEOUT, MAX_ATTEMPTS, MAX_WRITE_PACKET_ATTEMPTS, PACKET_TIMEOUT, RETRY_DELAY,
};
use crate::flash::reply::{
    command_status, is_response, packet_status, reported_crc, reported_info, AckStatus,
};
use crate::protocol::{MAXIMUM_WRITE_SIZE, WRITE_FRAME_PAYLOAD_SIZE, WRITE_MEMORY};
use crate::text::NumberError;
use crate::types::{boot_payload, identifier, BootInfo, EcuDefinition, PayloadError};
use vstd::prelude::*;

verus! {

/// What is to be done next. Times are in milliseconds.
#[derive(Debug)]
pub enum Action {
    /// Show how far the update has come.
    Report(Stage),
    /// Drop the frames that have been received and not looked at.
    Clear,
    /// Send a frame.
    Send(CanFrame),
    /// Do nothing for a while.
    Sleep(u64),
    /// Receive a frame, within a time that starts now.
    Wait(u64),
    /// Receive another frame, within the time that has started before.
    KeepWaiting,
    /// Nothing: the session is finished.
    Finish(Result<Option<BootInfo>, FlashError>),
}

/// What came of an action.
#[derive(Debug)]
pub enum Event {
    /// There was no action yet: the session starts.
    Begin,
    /// What was to be done is done.
    Completed,
    /// A frame was received.
    Received(CanFrame),
    /// The time to receive a frame is over.
    Expired,
    /// What was to be done could not be done.
    Failed,
}

/// Why a step failed.
#[derive(Debug, Clone, Copy, PartialEq, Eq, Structural)]
pub enum Cause {
    /// An action failed.
    Action,
    RequestId(NumberError),
    ResponseId(NumberError),
    WriteDataId(NumberError),
    BootRequestId(NumberError),
    BootPayload(PayloadError),
    ImageTooLong,
    Rejected { command: u8 },
    AckTimeout { command: u8 },
    ResponseTimeout { command: u8 },
    CrcMismatch { returned: u32, expected: u32 },
    WriteRequestTimeout,
    PacketTimeout { sequence: u8 },
    WriteTimeout,
    BlockRejected,
}

/// The step that failed, and why.
#[derive(Debug, Clone, Copy, PartialEq, Eq, Structural)]
pub struct FlashError {
    pub step: Step,
    pub cause: Cause,
}

/// Where an attempt at a command stands.
#[derive(Debug, Clone, Copy, PartialEq, Eq, Structural)]
pub enum ExchangeState {
    Clearing,
    Sending,
    AwaitingAck,
    AwaitingResponse,
    BackingOff,
}

/// Where an attempt at a block stands.
#[derive(Debug, Clone, Copy, PartialEq, Eq, Structural)]
pub enum WriteState {
    Clearing,
    SendingRequest { attempt: u8 },
    AwaitingRequestAck { attempt: u8 },
    RequestBackingOff { attempt: u8 },
    SendingPacket { packet: usize, attempt: u8 },
    AwaitingPacketAck { packet: usize, attempt: u8 },
    PacketBackingOff { packet: usize, attempt: u8 },
    AwaitingFinalAck,
    BackingOff,
}

/// Where a session stands in its step.
#[derive(Debug, Clone, Copy)]
pub enum Phase {
    Ready,
    Reporting,
    RequestingBootloader,
    Delaying,
    Exchanging { command: Command, attempt: u8, state: ExchangeState },
    Writing { block: Block, round: u8, progress: WriteState },
    Finished { result: Result<Option<BootInfo>, FlashError> },
}

/// Where a session stands.
#[derive(Debug, Clone, Copy)]
pub struct Cursor {
    pub index: usize,
    pub phase: Phase,
    pub info: Option<BootInfo>,
}

/// The identifiers of an ECU and the payload of its boot request, as far as they can be read.
#[derive(Debug)]
pub struct Route {
    pub request: Result<u32, NumberError>,
    pub response: Result<u32, NumberError>,
    pub write_data: Result<u32, NumberError>,
    pub boot_request: Result<u32, NumberError>,
    pub boot_payload: Result<Vec<u8>, PayloadError>,
}

/// What a [`Route`] holds.
pub struct RouteView {
    pub request: Result<u32, NumberError>,
    pub response: Result<u32, NumberError>,
    pub write_data: Result<u32, NumberError>,
    pub boot_request: Result<u32, NumberError>,
    pub boot_payload: Result<Seq<u8>, PayloadError>,
}

impl View for Route {
    type V = RouteView;

    open spec fn view(&self) -> RouteView {
        RouteView {
            request: self.request,
            response: self.response,
            write_data: self.write_data,
            boot_request: self.boot_request,
            boot_payload: match self.boot_payload {
                Ok(payload) => Ok(payload@),
                Err(error) => Err(error),
            },
        }
    }
}

/// The identifiers of an ECU and the payload of its boot request.
pub open spec fn route_of(ecu: EcuDefinition) -> RouteView {
    RouteView {
        request: identifier(ecu.request_id@),
        response: identifier(ecu.response_id@),
        write_data: identifier(ecu.write_data_id@),
        boot_request: identifier(ecu.application_boot_request_id@),
        boot_payload: boot_payload(ecu.application_boot_request_data@),
    }
}

impl Route {
    /// Reads the identifiers of an ECU.
    pub fn of(ecu: &EcuDefinition) -> (route: Route)
        ensures
            route@ == route_of(*ecu),
    {
        Route {
            request: ecu.request_can_id(),
            response: ecu.response_can_id(),
            write_data: ecu.write_data_can_id(),
            boot_request: ecu.boot_request_can_id(),
            boot_payload: ecu.boot_request_payload(),
        }
    }
}

/// What an [`Action`] says.
pub enum ActionView {
    Report(Stage),
    Clear,
    Send(FrameView),
    Sleep(u64),
    Wait(u64),
    KeepWaiting,
    Finish(Result<Option<BootInfo>, FlashError>),
}

impl View for Action {
    type V = ActionView;

    open spec fn view(&self) -> ActionView {
        match *self {
            Action::Report(stage) => ActionView::Report(stage),
            Action::Clear => ActionView::Clear,
            Action::Send(frame) => ActionView::Send(frame@),
            Action::Sleep(time) => ActionView::Sleep(time),
            Action::Wait(time) => ActionView::Wait(time),
            Action::KeepWaiting => ActionView::KeepWaiting,
            Action::Finish(result) => ActionView::Finish(result),
        }
    }
}

/// What an [`Event`] says.
pub enum EventView {
    Begin,
    Completed,
    Received(FrameView),
    Expired,
    Failed,
}

impl View for Event {
    type V = EventView;

    open spec fn view(&self) -> EventView {
        match *self {
            Event::Begin => EventView::Begin,
            Event::Completed => EventView::Completed,
            Event::Received(frame) => EventView::Received(frame@),
            Event::Expired => EventView::Expired,
            Event::Failed => EventView::Failed,
        }
    }
}

/// How a step goes on.
pub enum Turn {
    Go { phase: Phase, action: Action },
    Done { info: Option<BootInfo> },
    Fail(Cause),
}

/// What a [`Turn`] says.
pub enum TurnView {
    Go { phase: Phase, action: ActionView },
    Done { info: Option<BootInfo> },
    Fail(Cause),
}

impl View for Turn {
    type V = TurnView;

    open spec fn view(&self) -> TurnView {
        match *self {
            Turn::Go { phase, action } => TurnView::Go { phase, action: action@ },
            Turn::Done { info } => TurnView::Done { info },
            Turn::Fail(cause) => TurnView::Fail(cause),
        }
    }
}

/// What a session works on. It stays the same from beginning to end.
pub struct Job {
    pub route: RouteView,
    pub image: Seq<u8>,
    pub crc: u32,
    pub plan: Seq<Step>,
}

/// An attempt at a command, as a phase.
pub open spec fn exchanging(command: Command, attempt: u8, state: ExchangeState) -> Phase {
    Phase::Exchanging { command, attempt, state }
}

/// An attempt at a block, as a phase.
pub open spec fn writing(block: Block, round: u8, state: WriteState) -> Phase {
    Phase::Writing { block, round, progress: state }
}

/// Sends `data` to `id`.
pub open spec fn send(id: u32, data: Seq<u8>) -> ActionView {
    ActionView::Send(FrameView { id, data })
}

impl Job {
    /// An attempt at a command failed: it is tried again after a pause, as long as attempts are
    /// left.
    pub open spec fn attempt_failed(self, command: Command, attempt: u8, cause: Cause) -> TurnView {
        if attempt < command.attempts() {
            TurnView::Go {
                phase: exchanging(command, attempt, ExchangeState::BackingOff),
                action: ActionView::Sleep(RETRY_DELAY),
            }
        } else {
            TurnView::Fail(cause)
        }
    }

    /// An attempt at a command starts.
    pub open spec fn begin_attempt(self, command: Command, attempt: u8) -> TurnView {
        match command.spec_request(self.image.len() as int, self.crc) {
            Err(_) => self.attempt_failed(command, attempt, Cause::ImageTooLong),
            Ok(_) => TurnView::Go {
                phase: exchanging(command, attempt, ExchangeState::Clearing),
                action: ActionView::Clear,
            },
        }
    }

    /// A command is acknowledged: it is done, unless a response follows.
    pub open spec fn acknowledged(self, command: Command, attempt: u8) -> TurnView {
        match command.response_length() {
            None => TurnView::Done { info: None },
            Some(_) => TurnView::Go {
                phase: exchanging(command, attempt, ExchangeState::AwaitingResponse),
                action: ActionView::Wait(COMMAND_TIMEOUT),
            },
        }
    }

    /// The response to a command is there. The CRC in it has to be that of the image.
    pub open spec fn responded(self, command: Command, data: Seq<u8>) -> TurnView {
        match command {
            Command::GetVersion => TurnView::Done { info: Some(reported_info(data)) },
            Command::ComputeCrc => if reported_crc(data) == self.crc {
                TurnView::Done { info: None }
            } else {
                TurnView::Fail(
                    Cause::CrcMismatch { returned: reported_crc(data), expected: self.crc },
                )
            },
            _ => TurnView::Done { info: None },
        }
    }

    /// How a command goes on.
    pub open spec fn exchange(
        self,
        command: Command,
        attempt: u8,
        state: ExchangeState,
        event: EventView,
    ) -> TurnView {
        let waiting = TurnView::Go {
            phase: exchanging(command, attempt, state),
            action: ActionView::KeepWaiting,
        };
        match state {
            ExchangeState::Clearing => if event is Failed {
                self.attempt_failed(command, attempt, Cause::Action)
            } else {
                match (
                    self.route.request,
                    command.spec_request(self.image.len() as int, self.crc),
                ) {
                    (Err(error), _) => self.attempt_failed(
                        command,
                        attempt,
                        Cause::RequestId(error),
                    ),
                    (_, Err(_)) => self.attempt_failed(command, attempt, Cause::ImageTooLong),
                    (Ok(id), Ok(request)) => TurnView::Go {
                        phase: exchanging(command, attempt, ExchangeState::Sending),
                        action: send(id, request),
                    },
                }
            },
            ExchangeState::Sending => if event is Failed {
                self.attempt_failed(command, attempt, Cause::Action)
            } else {
                match self.route.response {
                    Err(error) => self.attempt_failed(command, attempt, Cause::ResponseId(error)),
                    Ok(_) => TurnView::Go {
                        phase: exchanging(command, attempt, ExchangeState::AwaitingAck),
                        action: ActionView::Wait(command.timeout()),
                    },
                }
            },
            ExchangeState::AwaitingAck => match (event, self.route.response) {
                (EventView::Failed, _) => self.attempt_failed(command, attempt, Cause::Action),
                (EventView::Expired, _) => self.attempt_failed(
                    command,
                    attempt,
                    Cause::AckTimeout { command: command.opcode() },
                ),
                (EventView::Received(frame), Ok(id)) => match command_status(
                    frame,
                    id,
                    command.opcode(),
                ) {
                    None => waiting,
                    Some(AckStatus::Nack) => self.attempt_failed(
                        command,
                        attempt,
                        Cause::Rejected { command: command.opcode() },
                    ),
                    Some(AckStatus::Ack) => self.acknowledged(command, attempt),
                },
                _ => waiting,
            },
            ExchangeState::AwaitingResponse => match (
                event,
                self.route.response,
                command.response_length(),
            ) {
                (EventView::Failed, _, _) => self.attempt_failed(command, attempt, Cause::Action),
                (EventView::Expired, _, _) => self.attempt_failed(
                    command,
                    attempt,
                    Cause::ResponseTimeout { command: command.opcode() },
                ),
                (EventView::Received(frame), Ok(id), Some(length)) => if is_response(
                    frame,
                    id,
                    command.opcode(),
                    length as int,
                ) {
                    self.responded(command, frame.data)
                } else {
                    waiting
                },
                _ => waiting,
            },
            ExchangeState::BackingOff => self.begin_attempt(command, (attempt + 1) as u8),
        }
    }

    /// A block is rejected: it is written again after a pause, as long as attempts are left.
    pub open spec fn block_rejected(self, block: Block, round: u8) -> TurnView {
        if round < MAX_ATTEMPTS {
            TurnView::Go {
                phase: writing(block, round, WriteState::BackingOff),
                action: ActionView::Sleep(RETRY_DELAY),
            }
        } else {
            TurnView::Fail(Cause::BlockRejected)
        }
    }

    /// The write command is sent.
    pub open spec fn send_request(self, block: Block, round: u8, attempt: u8) -> TurnView {
        match self.route.request {
            Err(error) => TurnView::Fail(Cause::RequestId(error)),
            Ok(id) => TurnView::Go {
                phase: writing(block, round, WriteState::SendingRequest { attempt }),
                action: send(id, write_request(block)),
            },
        }
    }

    /// A write-data frame is sent.
    pub open spec fn send_packet(
        self,
        block: Block,
        round: u8,
        packet: usize,
        attempt: u8,
    ) -> TurnView {
        match self.route.write_data {
            Err(error) => TurnView::Fail(Cause::WriteDataId(error)),
            Ok(id) => TurnView::Go {
                phase: writing(block, round, WriteState::SendingPacket { packet, attempt }),
                action: send(id, packet_frame(self.image, block, packet as int)),
            },
        }
    }

    /// An answer is waited for.
    pub open spec fn await_answer(
        self,
        block: Block,
        round: u8,
        state: WriteState,
        time: u64,
    ) -> TurnView {
        match self.route.response {
            Err(error) => TurnView::Fail(Cause::ResponseId(error)),
            Ok(_) => TurnView::Go {
                phase: writing(block, round, state),
                action: ActionView::Wait(time),
            },
        }
    }

    /// The write-data frame with a number is sent, or, behind the last one, the answer to the
    /// whole is waited for.
    pub open spec fn next_packet(self, block: Block, round: u8, packet: int) -> TurnView {
        if packet * WRITE_FRAME_PAYLOAD_SIZE < block.length {
            self.send_packet(block, round, packet as usize, 1)
        } else {
            self.await_answer(block, round, WriteState::AwaitingFinalAck, COMMAND_TIMEOUT)
        }
    }

    /// How a block goes on.
    pub open spec fn write(
        self,
        block: Block,
        round: u8,
        state: WriteState,
        event: EventView,
    ) -> TurnView {
        let waiting = TurnView::Go {
            phase: writing(block, round, state),
            action: ActionView::KeepWaiting,
        };
        match state {
            WriteState::Clearing => if event is Failed {
                TurnView::Fail(Cause::Action)
            } else {
                self.send_request(block, round, 1)
            },
            WriteState::SendingRequest { attempt } => if event is Failed {
                TurnView::Fail(Cause::Action)
            } else {
                self.await_answer(
                    block,
                    round,
                    WriteState::AwaitingRequestAck { attempt },
                    COMMAND_TIMEOUT,
                )
            },
            WriteState::AwaitingRequestAck { attempt } => match (event, self.route.response) {
                (EventView::Failed, _) => TurnView::Fail(Cause::Action),
                (EventView::Expired, _) => if attempt < MAX_WRITE_PACKET_ATTEMPTS {
                    TurnView::Go {
                        phase: writing(block, round, WriteState::RequestBackingOff { attempt }),
                        action: ActionView::Sleep(RETRY_DELAY),
                    }
                } else {
                    TurnView::Fail(Cause::WriteRequestTimeout)
                },
                (EventView::Received(frame), Ok(id)) => match command_status(
                    frame,
                    id,
                    WRITE_MEMORY,
                ) {
                    None => waiting,
                    Some(AckStatus::Nack) => self.block_rejected(block, round),
                    Some(AckStatus::Ack) => self.next_packet(block, round, 0),
                },
                _ => waiting,
            },
            WriteState::RequestBackingOff { attempt } => self.send_request(
                block,
                round,
                (attempt + 1) as u8,
            ),
            WriteState::SendingPacket { packet, attempt } => if event is Failed {
                TurnView::Fail(Cause::Action)
            } else {
                self.await_answer(
                    block,
                    round,
                    WriteState::AwaitingPacketAck { packet, attempt },
                    PACKET_TIMEOUT,
                )
            },
            WriteState::AwaitingPacketAck { packet, attempt } => match (
                event,
                self.route.response,
            ) {
                (EventView::Failed, _) => TurnView::Fail(Cause::Action),
                (EventView::Expired, _) => if attempt < MAX_WRITE_PACKET_ATTEMPTS {
                    TurnView::Go {
                        phase: writing(
                            block,
                            round,
                            WriteState::PacketBackingOff { packet, attempt },
                        ),
                        action: ActionView::Sleep(RETRY_DELAY),
                    }
                } else {
                    TurnView::Fail(
                        Cause::PacketTimeout { sequence: packet_sequence(packet as int) },
                    )
                },
                (EventView::Received(frame), Ok(id)) => match packet_status(
                    frame,
                    id,
                    packet_sequence(packet as int),
                ) {
                    None => waiting,
                    Some(AckStatus::Nack) => self.block_rejected(block, round),
                    Some(AckStatus::Ack) => self.next_packet(block, round, packet + 1),
                },
                _ => waiting,
            },
            WriteState::PacketBackingOff { packet, attempt } => self.send_packet(
                block,
                round,
                packet,
                (attempt + 1) as u8,
            ),
            WriteState::AwaitingFinalAck => match (event, self.route.response) {
                (EventView::Failed, _) => TurnView::Fail(Cause::Action),
                (EventView::Expired, _) => TurnView::Fail(Cause::WriteTimeout),
                (EventView::Received(frame), Ok(id)) => match command_status(
                    frame,
                    id,
                    WRITE_MEMORY,
                ) {
                    None => waiting,
                    Some(AckStatus::Nack) => self.block_rejected(block, round),
                    Some(AckStatus::Ack) => TurnView::Done { info: None },
                },
                _ => waiting,
            },
            WriteState::BackingOff => TurnView::Go {
                phase: writing(block, (round + 1) as u8, WriteState::Clearing),
                action: ActionView::Clear,
            },
        }
    }

    /// How a step starts.
    pub open spec fn enter(self, step: Step) -> TurnView {
        match step {
            Step::Report(stage) => TurnView::Go {
                phase: Phase::Reporting,
                action: ActionView::Report(stage),
            },
            Step::RequestBootloader => match (self.route.boot_request, self.route.boot_payload) {
                (Err(error), _) => TurnView::Fail(Cause::BootRequestId(error)),
                (_, Err(error)) => TurnView::Fail(Cause::BootPayload(error)),
                (Ok(id), Ok(payload)) => TurnView::Go {
                    phase: Phase::RequestingBootloader,
                    action: send(id, payload),
                },
            },
            Step::BootDelay => TurnView::Go {
                phase: Phase::Delaying,
                action: ActionView::Sleep(BOOT_DELAY),
            },
            Step::Exchange(command) => self.begin_attempt(command, 1),
            Step::Write(block) => TurnView::Go {
                phase: writing(block, 1, WriteState::Clearing),
                action: ActionView::Clear,
            },
        }
    }

    /// How a step goes on.
    pub open spec fn react(self, phase: Phase, event: EventView) -> TurnView {
        match phase {
            Phase::Reporting | Phase::RequestingBootloader => if event is Failed {
                TurnView::Fail(Cause::Action)
            } else {
                TurnView::Done { info: None }
            },
            Phase::Exchanging { command, attempt, state } => self.exchange(
                command,
                attempt,
                state,
                event,
            ),
            Phase::Writing { block, round, progress } => self.write(block, round, progress, event),
            _ => TurnView::Done { info: None },
        }
    }

    /// What a turn in a step means for the session: a step that is done is followed by the next
    /// one, and the session is finished behind the last step or at the first one that fails.
    pub open spec fn settle(self, index: int, info: Option<BootInfo>, turn: TurnView) -> (
        Cursor,
        ActionView,
    )
        decreases self.plan.len() - index,
    {
        match turn {
            TurnView::Go { phase, action } => (
                Cursor { index: index as usize, phase, info },
                action,
            ),
            TurnView::Fail(cause) => self.finish(
                index,
                info,
                Err(FlashError { step: self.plan[index], cause }),
            ),
            TurnView::Done { info: news } => {
                let known = if news is Some {
                    news
                } else {
                    info
                };
                if index + 1 < self.plan.len() {
                    self.settle(index + 1, known, self.enter(self.plan[index + 1]))
                } else {
                    self.finish(index, known, Ok(known))
                }
            },
        }
    }

    /// The session is finished.
    pub open spec fn finish(
        self,
        index: int,
        info: Option<BootInfo>,
        result: Result<Option<BootInfo>, FlashError>,
    ) -> (Cursor, ActionView) {
        (
            Cursor { index: index as usize, phase: Phase::Finished { result }, info },
            ActionView::Finish(result),
        )
    }

    /// Where a session stands after an event, and what is to be done next.
    pub open spec fn advance(self, cursor: Cursor, event: EventView) -> (Cursor, ActionView) {
        match cursor.phase {
            Phase::Finished { result } => (cursor, ActionView::Finish(result)),
            Phase::Ready => self.settle(
                cursor.index as int,
                cursor.info,
                self.enter(self.plan[cursor.index as int]),
            ),
            phase => self.settle(cursor.index as int, cursor.info, self.react(phase, event)),
        }
    }

    /// Whether every block of the plan is a part of the image that a write command can carry.
    pub open spec fn is_valid(self) -> bool {
        &&& self.plan.len() > 0
        &&& self.plan.len() <= usize::MAX
        &&& self.image.len() <= usize::MAX
        &&& forall|i: int|
            #![trigger self.plan[i]]
            0 <= i < self.plan.len() ==> (self.plan[i] matches Step::Write(block)
                ==> self.has_block(block))
    }

    /// Whether a block is a part of the image that a write command can carry.
    pub open spec fn has_block(self, block: Block) -> bool {
        1 <= block.length <= MAXIMUM_WRITE_SIZE && block.offset + block.length <= self.image.len()
    }

    /// Whether a phase belongs to a step, with as many attempts as there can be.
    pub open spec fn phase_fits(self, step: Step, phase: Phase) -> bool {
        match (step, phase) {
            (Step::Report(_), Phase::Reporting) => true,
            (Step::RequestBootloader, Phase::RequestingBootloader) => true,
            (Step::BootDelay, Phase::Delaying) => true,
            (Step::Exchange(expected), Phase::Exchanging { command, attempt, state }) => {
                &&& command == expected
                &&& 1 <= attempt <= command.attempts()
                &&& state is BackingOff ==> attempt < command.attempts()
                &&& state is AwaitingResponse ==> command.response_length() is Some
            },
            (Step::Write(expected), Phase::Writing { block, round, progress: state }) => {
                &&& block == expected
                &&& 1 <= round <= MAX_ATTEMPTS
                &&& state is BackingOff ==> round < MAX_ATTEMPTS
                &&& match state {
                    WriteState::SendingRequest { attempt } => 1 <= attempt
                        <= MAX_WRITE_PACKET_ATTEMPTS,
                    WriteState::AwaitingRequestAck { attempt } => 1 <= attempt
                        <= MAX_WRITE_PACKET_ATTEMPTS,
                    WriteState::RequestBackingOff { attempt } => 1 <= attempt
                        < MAX_WRITE_PACKET_ATTEMPTS,
                    WriteState::SendingPacket { packet, attempt } => 1 <= attempt
                        <= MAX_WRITE_PACKET_ATTEMPTS && packet * WRITE_FRAME_PAYLOAD_SIZE
                        < block.length,
                    WriteState::AwaitingPacketAck { packet, attempt } => 1 <= attempt
                        <= MAX_WRITE_PACKET_ATTEMPTS && packet * WRITE_FRAME_PAYLOAD_SIZE
                        < block.length,
                    WriteState::PacketBackingOff { packet, attempt } => 1 <= attempt
                        < MAX_WRITE_PACKET_ATTEMPTS && packet * WRITE_FRAME_PAYLOAD_SIZE
                        < block.length,
                    _ => true,
                }
            },
            _ => false,
        }
    }

    /// Whether a session can stand at a cursor.
    pub open spec fn cursor_fits(self, cursor: Cursor) -> bool {
        &&& cursor.index < self.plan.len()
        &&& match cursor.phase {
            Phase::Ready => cursor.index == 0 && cursor.info is None,
            Phase::Finished { .. } => true,
            phase => self.phase_fits(self.plan[cursor.index as int], phase),
        }
    }

    /// Where a session starts.
    pub open spec fn start() -> Cursor {
        Cursor { index: 0, phase: Phase::Ready, info: None }
    }
}

impl Job {
    /// Whether the phase of a turn belongs to a step.
    pub open spec fn turn_fits(self, step: Step, turn: TurnView) -> bool {
        turn matches TurnView::Go { phase, .. } ==> self.phase_fits(step, phase)
    }

    /// A step starts in a phase of its own.
    pub proof fn lemma_enter_fits(self, step: Step)
        ensures
            self.turn_fits(step, self.enter(step)),
            !(self.enter(step) is Done),
    {
    }

    /// A step goes on in a phase of its own.
    pub proof fn lemma_react_fits(self, step: Step, phase: Phase, event: EventView)
        requires
            self.phase_fits(step, phase),
            step matches Step::Write(block) ==> self.has_block(block),
        ensures
            self.turn_fits(step, self.react(phase, event)),
    {
    }

    proof fn lemma_settle_fits(self, index: int, info: Option<BootInfo>, turn: TurnView)
        requires
            self.is_valid(),
            0 <= index < self.plan.len(),
            self.turn_fits(self.plan[index], turn),
            turn matches TurnView::Go { phase, .. } ==> !(phase is Ready) && !(phase is Finished),
        ensures
            self.cursor_fits(self.settle(index, info, turn).0),
        decreases self.plan.len() - index,
    {
        if turn is Done && index + 1 < self.plan.len() {
            self.lemma_enter_fits(self.plan[index + 1]);
            let known = if turn->info is Some {
                turn->info
            } else {
                info
            };
            self.lemma_settle_fits(index + 1, known, self.enter(self.plan[index + 1]));
        }
    }

    /// How the step of a session that is not finished goes on.
    pub open spec fn turn(self, cursor: Cursor, event: EventView) -> TurnView {
        if cursor.phase is Ready {
            self.enter(self.plan[cursor.index as int])
        } else {
            self.react(cursor.phase, event)
        }
    }

    /// Whether a turn at a step leads to a cursor and an action.
    pub open spec fn leads_to(
        self,
        index: int,
        turn: TurnView,
        next: Cursor,
        action: ActionView,
    ) -> bool {
        &&& next.index == index
        &&& match turn {
            TurnView::Go { phase, action: given } => next.phase == phase && action == given,
            TurnView::Fail(cause) => next.phase == (Phase::Finished {
                result: Err(FlashError { step: self.plan[index], cause }),
            }) && action == ActionView::Finish(Err(FlashError { step: self.plan[index], cause })),
            TurnView::Done { .. } => index == self.plan.len() - 1 && (next.phase
                matches Phase::Finished { result } && result is Ok && action
                == ActionView::Finish(result)),
        }
    }

    /// A session that is not finished goes on in its step, or starts the next one.
    pub proof fn lemma_advance(self, cursor: Cursor, event: EventView)
        requires
            self.is_valid(),
            self.cursor_fits(cursor),
            !(cursor.phase is Finished),
        ensures
            ({
                let (next, action) = self.advance(cursor, event);
                let index = cursor.index as int;
                let turn = self.turn(cursor, event);
                if turn is Done && index + 1 < self.plan.len() {
                    let start = self.enter(self.plan[index + 1]);
                    !(start is Done) && self.leads_to(index + 1, start, next, action)
                } else {
                    self.leads_to(index, turn, next, action)
                }
            }),
    {
        let index = cursor.index as int;
        let turn = self.turn(cursor, event);
        assert(self.advance(cursor, event) == self.settle(index, cursor.info, turn));
        if turn is Done && index + 1 < self.plan.len() {
            self.lemma_enter_fits(self.plan[index + 1]);
            let known = if turn->info is Some {
                turn->info
            } else {
                cursor.info
            };
            assert(self.advance(cursor, event) == self.settle(
                index + 1,
                known,
                self.enter(self.plan[index + 1]),
            ));
        }
    }

    /// Whatever happens, a session stands where a session can stand: in a phase of its current
    /// step, with no more attempts than there can be.
    pub proof fn law_cursor_stays_valid(self, cursor: Cursor, event: EventView)
        requires
            self.is_valid(),
            self.cursor_fits(cursor),
        ensures
            self.cursor_fits(self.advance(cursor, event).0),
    {
        let index = cursor.index as int;
        match cursor.phase {
            Phase::Finished { .. } => {},
            Phase::Ready => {
                self.lemma_enter_fits(self.plan[index]);
                self.lemma_settle_fits(index, cursor.info, self.enter(self.plan[index]));
            },
            phase => {
                self.lemma_react_fits(self.plan[index], phase, event);
                self.lemma_settle_fits(index, cursor.info, self.react(phase, event));
            },
        }
    }
}

} // verus!
