//! What holds of every session, whatever the bus brings.

use crate::can::MAXIMUM_PAYLOAD;
use crate::flash::job::{
    route_of, ActionView, Cause, Cursor, EventView, ExchangeState, Job, Phase, TurnView, WriteState,
};
use crate::flash::plan::{
    block_at, law_packets_make_up_the_block, law_requests_fit_in_a_frame, packet_count,
    packet_frame, packet_sequence, Command, Step, MAXIMUM_PACKETS, MAX_ATTEMPTS,
    MAX_WRITE_PACKET_ATTEMPTS,
};
use crate::flash::reply::{
    command_status, is_response, packet_status, reported_crc, reported_info, AckStatus,
};
use crate::flash::run::{
    law_frames_belong_to_the_current_step, law_steps_are_accomplished_in_order, lemma_finish, Run,
};
use crate::protocol::{GET_VERSION, WRITE_MEMORY};
use crate::types::{BootInfo, EcuDefinition};
use vstd::prelude::*;

verus! {

/// More turns than are left in any step.
pub open spec fn turns_per_step() -> int {
    5_000
}

/// A bound on the turns that are left in a phase, waiting apart.
pub open spec fn turns_left_in_phase(phase: Phase) -> int {
    match phase {
        Phase::Exchanging { command, attempt, state } => 10 * (command.attempts() - attempt)
            + match state {
            ExchangeState::Clearing => 5int,
            ExchangeState::Sending => 4,
            ExchangeState::AwaitingAck => 3,
            ExchangeState::AwaitingResponse => 2,
            ExchangeState::BackingOff => 1,
        },
        Phase::Writing { block, round, progress } => 1_000 * (MAX_ATTEMPTS - round)
            + match progress {
            WriteState::Clearing => 999int,
            WriteState::SendingRequest { attempt } => 602 + requests_left(attempt),
            WriteState::AwaitingRequestAck { attempt } => 601 + requests_left(attempt),
            WriteState::RequestBackingOff { attempt } => 600 + requests_left(attempt),
            WriteState::SendingPacket { packet, attempt } => 12 + packets_left(packet, attempt),
            WriteState::AwaitingPacketAck { packet, attempt } => 11 + packets_left(packet, attempt),
            WriteState::PacketBackingOff { packet, attempt } => 10 + packets_left(packet, attempt),
            WriteState::AwaitingFinalAck => 5,
            WriteState::BackingOff => 1,
        },
        Phase::Ready => turns_per_step() - 1,
        _ => 1,
    }
}

/// A bound on the turns that the attempts left at a write command take.
pub open spec fn requests_left(attempt: u8) -> int {
    3 * (MAX_WRITE_PACKET_ATTEMPTS - attempt)
}

/// A bound on the turns that the write-data frames left of a block take, and the attempts left at
/// the current one.
pub open spec fn packets_left(packet: usize, attempt: u8) -> int {
    12 * (MAXIMUM_PACKETS - packet) + requests_left(attempt)
}

/// A bound on the turns that are left in a session, waiting apart.
pub open spec fn turns_left(job: Job, cursor: Cursor) -> int {
    if cursor.phase is Finished {
        0
    } else {
        turns_per_step() * (job.plan.len() - cursor.index) + turns_left_in_phase(cursor.phase)
    }
}

proof fn lemma_turns_in_step(job: Job, step: Step, phase: Phase, event: EventView)
    requires
        job.phase_fits(step, phase),
        step matches Step::Write(block) ==> job.has_block(block),
    ensures
        0 < turns_left_in_phase(phase) < turns_per_step(),
        job.react(phase, event) matches TurnView::Go { phase: next, action } ==> {
            ||| action is KeepWaiting && next == phase
            ||| turns_left_in_phase(next) < turns_left_in_phase(phase)
        },
{
}

/// A turn brings the end of a session nearer, unless it is about a frame that says nothing or
/// the session is finished: then it changes nothing.
pub proof fn law_every_turn_brings_the_end_nearer(job: Job, cursor: Cursor, event: EventView)
    requires
        job.is_valid(),
        job.cursor_fits(cursor),
    ensures
        turns_left(job, cursor) >= 0,
        ({
            let (next, action) = job.advance(cursor, event);
            if action is KeepWaiting || cursor.phase is Finished {
                next == cursor
            } else {
                turns_left(job, next) < turns_left(job, cursor)
            }
        }),
{
    let index = cursor.index as int;
    if !(cursor.phase is Finished) {
        job.lemma_advance(cursor, event);
        job.lemma_enter_fits(job.plan[index]);
        if !(cursor.phase is Ready) {
            lemma_turns_in_step(job, job.plan[index], cursor.phase, event);
        }
        let (next, _) = job.advance(cursor, event);
        job.law_cursor_stays_valid(cursor, event);
        if !(next.phase is Finished) {
            lemma_turns_in_step(job, job.plan[next.index as int], next.phase, event);
        }
    }
}

/// The number of turns among the first `n` that were more than waiting on.
pub open spec fn turns(run: Run, n: int) -> int
    decreases n,
{
    if n <= 0 {
        0
    } else if run.actions[n - 1] is KeepWaiting {
        turns(run, n - 1)
    } else {
        turns(run, n - 1) + 1
    }
}

/// A session ends: there is a bound, known from its plan, on the turns that it takes, those apart
/// in which it waits on because a frame said nothing.
pub proof fn law_a_session_ends(job: Job, run: Run, n: int)
    requires
        job.is_valid(),
        run.is_of(job),
        0 <= n <= run.events.len(),
    ensures
        !(run.cursors[n].phase is Finished) ==> turns(run, n) + turns_left(job, run.cursors[n])
            <= turns_left(job, Job::start()),
        turns(run, n) > turns_left(job, Job::start()) ==> run.actions[n - 1] is Finish,
    decreases n,
{
    if n > 0 {
        law_a_session_ends(job, run, n - 1);
        law_steps_are_accomplished_in_order(job, run, n - 1);
        law_steps_are_accomplished_in_order(job, run, n);
        assert((run.cursors[n], run.actions[n - 1]) == job.advance(
            run.cursors[n - 1],
            run.events[n - 1],
        ));
        law_every_turn_brings_the_end_nearer(job, run.cursors[n - 1], run.events[n - 1]);
        law_every_turn_brings_the_end_nearer(job, run.cursors[n], run.events[n - 1]);
        lemma_finish(job, run, n - 1);
    }
}

/// Whether what a step sends can be sent, and its answers recognised: the identifiers that it
/// uses can be read, and the image is not too long to be announced.
pub open spec fn is_feasible(job: Job, step: Step) -> bool {
    match step {
        Step::RequestBootloader => job.route.boot_request is Ok && job.route.boot_payload is Ok,
        Step::Exchange(command) => {
            &&& job.route.request is Ok
            &&& job.route.response is Ok
            &&& command.spec_request(job.image.len() as int, job.crc) is Ok
        },
        Step::Write(_) => {
            &&& job.route.request is Ok
            &&& job.route.response is Ok
            &&& job.route.write_data is Ok
        },
        _ => true,
    }
}

/// Whether an event is what a session hopes for: its action is completed or, where it waits, the
/// bootloader acknowledges or responds, with the CRC of the image where a CRC was asked for.
pub open spec fn is_welcome(job: Job, phase: Phase, event: EventView) -> bool {
    match phase {
        Phase::Exchanging { command, state: ExchangeState::AwaitingAck, .. } => {
            event matches EventView::Received(frame) && command_status(
                frame,
                job.route.response->Ok_0,
                command.opcode(),
            ) == Some(AckStatus::Ack)
        },
        Phase::Exchanging { command, state: ExchangeState::AwaitingResponse, .. } => {
            event matches EventView::Received(frame) && is_response(
                frame,
                job.route.response->Ok_0,
                command.opcode(),
                command.response_length()->0 as int,
            ) && (command is ComputeCrc ==> reported_crc(frame.data) == job.crc)
        },
        Phase::Writing { progress: WriteState::AwaitingRequestAck { .. }, .. } => {
            event matches EventView::Received(frame) && command_status(
                frame,
                job.route.response->Ok_0,
                WRITE_MEMORY,
            ) == Some(AckStatus::Ack)
        },
        Phase::Writing { progress: WriteState::AwaitingPacketAck { packet, .. }, .. } => {
            event matches EventView::Received(frame) && packet_status(
                frame,
                job.route.response->Ok_0,
                packet_sequence(packet as int),
            ) == Some(AckStatus::Ack)
        },
        Phase::Writing { progress: WriteState::AwaitingFinalAck, .. } => {
            event matches EventView::Received(frame) && command_status(
                frame,
                job.route.response->Ok_0,
                WRITE_MEMORY,
            ) == Some(AckStatus::Ack)
        },
        _ => !(event is Failed),
    }
}

proof fn lemma_welcome_turn(job: Job, cursor: Cursor, event: EventView)
    requires
        job.is_valid(),
        job.cursor_fits(cursor),
        forall|step: int|
            0 <= step < job.plan.len() ==> is_feasible(job, #[trigger] job.plan[step]),
        is_welcome(job, cursor.phase, event),
        !(cursor.phase matches Phase::Finished { result: Err(_) }),
    ensures
        !(job.advance(cursor, event).1 is KeepWaiting),
        !(job.advance(cursor, event).1 matches ActionView::Finish(Err(_))),
        !(job.advance(cursor, event).0.phase matches Phase::Finished { result: Err(_) }),
{
    let index = cursor.index as int;
    assert(is_feasible(job, job.plan[index]));
    if !(cursor.phase is Finished) {
        job.lemma_advance(cursor, event);
        job.lemma_enter_fits(job.plan[index]);
        if index + 1 < job.plan.len() {
            assert(is_feasible(job, job.plan[index + 1]));
        }
    }
}

/// A session succeeds when all goes well: with identifiers that can be read and an image that can
/// be announced, and with a bus and a bootloader that do what is hoped for, no session fails, and
/// within its bound it has succeeded.
pub proof fn law_a_session_succeeds_when_all_goes_well(job: Job, run: Run, n: int)
    requires
        job.is_valid(),
        run.is_of(job),
        0 <= n <= run.events.len(),
        forall|step: int|
            0 <= step < job.plan.len() ==> is_feasible(job, #[trigger] job.plan[step]),
        forall|i: int|
            0 <= i < n ==> is_welcome(job, run.cursors[i].phase, #[trigger] run.events[i]),
    ensures
        !(run.cursors[n].phase matches Phase::Finished { result: Err(_) }),
        n > turns_left(job, Job::start()) ==> run.actions[n - 1] matches ActionView::Finish(Ok(_)),
    decreases n,
{
    lemma_all_goes_well(job, run, n);
    law_a_session_ends(job, run, n);
}

proof fn lemma_all_goes_well(job: Job, run: Run, n: int)
    requires
        job.is_valid(),
        run.is_of(job),
        0 <= n <= run.events.len(),
        forall|step: int|
            0 <= step < job.plan.len() ==> is_feasible(job, #[trigger] job.plan[step]),
        forall|i: int|
            0 <= i < n ==> is_welcome(job, run.cursors[i].phase, #[trigger] run.events[i]),
    ensures
        !(run.cursors[n].phase matches Phase::Finished { result: Err(_) }),
        n > 0 ==> !(run.actions[n - 1] matches ActionView::Finish(Err(_))),
        turns(run, n) == n,
    decreases n,
{
    if n > 0 {
        lemma_all_goes_well(job, run, n - 1);
        law_steps_are_accomplished_in_order(job, run, n - 1);
        assert((run.cursors[n], run.actions[n - 1]) == job.advance(
            run.cursors[n - 1],
            run.events[n - 1],
        ));
        lemma_welcome_turn(job, run.cursors[n - 1], run.events[n - 1]);
    }
}

/// How often a command has been tried behind the next event: a pause is followed by a new attempt.
pub open spec fn attempts_made(attempt: u8, state: ExchangeState) -> int {
    if state is BackingOff {
        attempt + 1
    } else {
        attempt as int
    }
}

/// A command that fails has been tried as often as it is to be tried; only a wrong CRC is final
/// at once. The error names the step.
pub proof fn law_commands_are_tried_again(job: Job, cursor: Cursor, event: EventView)
    requires
        job.is_valid(),
        job.cursor_fits(cursor),
        cursor.phase is Exchanging,
    ensures
        ({
            let (next, action) = job.advance(cursor, event);
            action matches ActionView::Finish(Err(error)) ==> next.index == cursor.index ==> {
                &&& error.step == job.plan[cursor.index as int]
                &&& error.cause is CrcMismatch || attempts_made(
                    cursor.phase->attempt,
                    cursor.phase->state,
                ) == cursor.phase->command.attempts()
            }
        }),
{
    job.lemma_advance(cursor, event);
}

/// A block that is given up was rejected in every round, or its write command or a write-data
/// frame stayed unanswered as often as it is to be sent.
pub proof fn law_blocks_are_tried_again(job: Job, cursor: Cursor, event: EventView)
    requires
        job.is_valid(),
        job.cursor_fits(cursor),
        cursor.phase is Writing,
    ensures
        ({
            let (next, action) = job.advance(cursor, event);
            action matches ActionView::Finish(Err(error)) ==> next.index == cursor.index
                ==> match error.cause {
                Cause::BlockRejected => cursor.phase->round == MAX_ATTEMPTS,
                Cause::WriteRequestTimeout => cursor.phase->progress
                    == (WriteState::AwaitingRequestAck { attempt: MAX_WRITE_PACKET_ATTEMPTS }),
                Cause::PacketTimeout { .. } => cursor.phase->progress
                    matches WriteState::AwaitingPacketAck { attempt, .. } && attempt
                    == MAX_WRITE_PACKET_ATTEMPTS,
                _ => true,
            }
        }),
{
    job.lemma_advance(cursor, event);
}

/// Whether event `i` is a response of the bootloader that reports this.
pub open spec fn reports(job: Job, run: Run, info: BootInfo, i: int) -> bool {
    0 <= i < run.events.len() && (run.events[i] matches EventView::Received(frame)
        && job.route.response is Ok && is_response(frame, job.route.response->Ok_0, GET_VERSION, 4)
        && reported_info(frame.data) == info)
}

/// What a session says of the bootloader is what the bootloader has reported. A session that has
/// asked for it, and was answered, says something.
pub proof fn law_version_is_as_reported(job: Job, run: Run, n: int)
    requires
        job.is_valid(),
        run.is_of(job),
        0 <= n <= run.events.len(),
    ensures
        run.cursors[n].info matches Some(info) ==> exists|i: int|
            i < n && #[trigger] reports(job, run, info, i),
        forall|step: int|
            0 <= step < run.cursors[n].index && #[trigger] job.plan[step] == Step::Exchange(
                Command::GetVersion,
            ) ==> run.cursors[n].info is Some,
        run.cursors[n].phase matches Phase::Finished { result: Ok(info) } ==> {
            &&& info == run.cursors[n].info
            &&& forall|step: int|
                0 <= step < job.plan.len() && #[trigger] job.plan[step] == Step::Exchange(
                    Command::GetVersion,
                ) ==> info is Some
        },
    decreases n,
{
    if n > 0 {
        law_version_is_as_reported(job, run, n - 1);
        law_steps_are_accomplished_in_order(job, run, n - 1);
        law_steps_are_accomplished_in_order(job, run, n);
        let before = run.cursors[n - 1];
        let event = run.events[n - 1];
        let index = before.index as int;
        assert((run.cursors[n], run.actions[n - 1]) == job.advance(before, event));
        match before.phase {
            Phase::Finished { .. } => {},
            Phase::Ready => {
                job.lemma_enter_fits(job.plan[index]);
            },
            phase => {
                job.lemma_react_fits(job.plan[index], phase, event);
                let turn = job.react(phase, event);
                if turn is Done {
                    let known = if turn->info is Some {
                        turn->info
                    } else {
                        before.info
                    };
                    if let Some(info) = turn->info {
                        assert(reports(job, run, info, n - 1));
                    }
                    if index + 1 < job.plan.len() {
                        let enter = job.enter(job.plan[index + 1]);
                        job.lemma_enter_fits(job.plan[index + 1]);
                        assert(job.advance(before, event) == job.settle(index + 1, known, enter));
                    }
                }
            },
        }
    }
}

/// Every frame that a session sends fits on a classical CAN bus, and is not empty.
pub proof fn law_frames_fit_on_the_bus(
    job: Job,
    ecu: EcuDefinition,
    cursor: Cursor,
    event: EventView,
)
    requires
        job.is_valid(),
        job.route == route_of(ecu),
        job.cursor_fits(cursor),
    ensures
        job.advance(cursor, event).1 matches ActionView::Send(frame) ==> 1 <= frame.data.len()
            <= MAXIMUM_PAYLOAD,
{
    let (next, action) = job.advance(cursor, event);
    if let ActionView::Send(frame) = action {
        law_frames_belong_to_the_current_step(job, cursor, event);
        job.law_cursor_stays_valid(cursor, event);
        let step = job.plan[next.index as int];
        match step {
            Step::Exchange(command) => {
                law_requests_fit_in_a_frame(
                    command,
                    job.image.len() as int,
                    job.crc,
                    block_at(0, 0),
                );
            },
            Step::Write(block) => {
                assert(job.has_block(block));
                law_requests_fit_in_a_frame(Command::Ping, 0, 0, block);
                assert forall|packet: int|
                    0 <= packet < packet_count(block.length as int) implies 2
                    <= (#[trigger] packet_frame(job.image, block, packet)).len() <= 8 by {
                    law_packets_make_up_the_block(job.image, block, packet);
                }
            },
            _ => {},
        }
    }
}

} // verus!
