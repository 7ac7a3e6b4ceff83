//! How often frames are sent in the course of a session.

use crate::flash::job::{send, ActionView, ExchangeState, Job, Phase, WriteState};
use crate::flash::plan::{
    packet_count, packet_frame, packet_sequence, write_request, Block, Command, Step, MAX_ATTEMPTS,
    MAX_WRITE_PACKET_ATTEMPTS,
};
use crate::flash::run::{
    is_frame_of, law_frames_belong_to_the_current_step, law_steps_are_accomplished_in_order,
    lemma_packet_is_no_request, Run,
};
use crate::flash::update::{
    boot_request_swaps, is_swap_frame, law_a_successful_update_is_complete,
    lemma_swap_is_sent_in_its_step, lemma_update_plan, swap_step, was_verified,
};
use crate::flash::{lemma_update_job_is_valid, update_job};
use crate::protocol::BANK_SWAP;
use crate::types::{EcuDefinition, Firmware};
use vstd::prelude::*;

verus! {

/// Whether action `i` sends a frame, in the course of a step.
pub open spec fn sends(run: Run, step: int, i: int) -> bool {
    run.cursors[i + 1].index == step && run.actions[i] is Send
}

/// The number of frames that were sent in the course of a step before event `n`.
pub open spec fn frames_sent(run: Run, step: int, n: int) -> int
    decreases n,
{
    if n <= 0 {
        0
    } else {
        frames_sent(run, step, n - 1) + if sends(run, step, n - 1) {
            1int
        } else {
            0
        }
    }
}

/// The number of times that an action of a step came before event `n`.
pub open spec fn times(run: Run, step: int, action: ActionView, n: int) -> int
    decreases n,
{
    if n <= 0 {
        0
    } else {
        times(run, step, action, n - 1) + if run.did(step, action, n - 1) {
            1int
        } else {
            0
        }
    }
}

/// The number of frames that a step may have sent when it is at a phase. Blocks are counted frame
/// by frame.
spec fn frames_so_far(step: Step, phase: Phase) -> int {
    match (step, phase) {
        (Step::Exchange(_), Phase::Exchanging { attempt, state: ExchangeState::Clearing, .. }) =>
        attempt - 1,
        (Step::Exchange(_), Phase::Exchanging { attempt, .. }) => attempt as int,
        (_, Phase::Ready) => 0,
        _ => frames_allowed(step),
    }
}

/// The number of frames that a step may send, but for a block.
pub open spec fn frames_allowed(step: Step) -> int {
    match step {
        Step::Exchange(command) => command.attempts() as int,
        Step::RequestBootloader => 1,
        _ => 0,
    }
}

proof fn lemma_frames_so_far(job: Job, run: Run, step: int, n: int)
    requires
        job.is_valid(),
        run.is_of(job),
        0 <= n <= run.events.len(),
        0 <= step < job.plan.len(),
        !(job.plan[step] is Write),
    ensures
        0 <= frames_sent(run, step, n),
        run.cursors[n].index < step ==> frames_sent(run, step, n) == 0,
        run.cursors[n].index == step ==> frames_sent(run, step, n) <= frames_so_far(
            job.plan[step],
            run.cursors[n].phase,
        ),
        frames_sent(run, step, n) <= frames_allowed(job.plan[step]),
    decreases n,
{
    if n > 0 {
        lemma_frames_so_far(job, run, step, n - 1);
        law_steps_are_accomplished_in_order(job, run, n - 1);
        law_steps_are_accomplished_in_order(job, run, n);
        let before = run.cursors[n - 1];
        let event = run.events[n - 1];
        assert((run.cursors[n], run.actions[n - 1]) == job.advance(before, event));
        if !(before.phase is Finished) {
            job.lemma_advance(before, event);
            job.lemma_enter_fits(job.plan[before.index as int]);
        }
    }
}

/// A step sends what it is about no more often than it is to be tried: a command at most as often
/// as it has attempts, and a boot request at most once. It sends nothing else.
pub proof fn law_commands_are_sent_no_more_often_than_tried(job: Job, run: Run, step: int, n: int)
    requires
        job.is_valid(),
        run.is_of(job),
        0 <= n <= run.events.len(),
        0 <= step < job.plan.len(),
        !(job.plan[step] is Write),
    ensures
        frames_sent(run, step, n) <= frames_allowed(job.plan[step]),
        forall|i: int|
            0 <= i < n && #[trigger] sends(run, step, i) ==> is_frame_of(
                job,
                job.plan[step],
                run.actions[i]->Send_0,
            ),
        job.plan[step] matches Step::Exchange(command) ==> forall|i: int|
            0 <= i < n && #[trigger] sends(run, step, i) ==> run.requested(job, step, command, i),
{
    lemma_frames_so_far(job, run, step, n);
    assert forall|i: int| 0 <= i < n && #[trigger] sends(run, step, i) implies is_frame_of(
        job,
        job.plan[step],
        run.actions[i]->Send_0,
    ) by {
        law_steps_are_accomplished_in_order(job, run, i);
        assert((run.cursors[i + 1], run.actions[i]) == job.advance(
            run.cursors[i],
            run.events[i],
        ));
        law_frames_belong_to_the_current_step(job, run.cursors[i], run.events[i]);
    }
}

/// The number of times that the write command of a block may have been sent when the block is at a
/// phase.
spec fn requests_so_far(phase: Phase) -> int {
    match phase {
        Phase::Writing { round, progress, .. } => MAX_WRITE_PACKET_ATTEMPTS * (round - 1)
            + match progress {
            WriteState::Clearing => 0int,
            WriteState::SendingRequest { attempt } => attempt as int,
            WriteState::AwaitingRequestAck { attempt } => attempt as int,
            WriteState::RequestBackingOff { attempt } => attempt as int,
            _ => MAX_WRITE_PACKET_ATTEMPTS as int,
        },
        Phase::Ready => 0,
        _ => block_frame_allowed(),
    }
}

/// The number of times that a write-data frame may have been sent when its block is at a phase.
spec fn packets_so_far(packet: int, phase: Phase) -> int {
    match phase {
        Phase::Writing { round, progress, .. } => MAX_WRITE_PACKET_ATTEMPTS * (round - 1)
            + match progress {
            WriteState::SendingPacket { packet: current, attempt } => packet_so_far(
                packet,
                current as int,
                attempt,
            ),
            WriteState::AwaitingPacketAck { packet: current, attempt } => packet_so_far(
                packet,
                current as int,
                attempt,
            ),
            WriteState::PacketBackingOff { packet: current, attempt } => packet_so_far(
                packet,
                current as int,
                attempt,
            ),
            WriteState::AwaitingFinalAck => MAX_WRITE_PACKET_ATTEMPTS as int,
            WriteState::BackingOff => MAX_WRITE_PACKET_ATTEMPTS as int,
            _ => 0,
        },
        Phase::Ready => 0,
        _ => block_frame_allowed(),
    }
}

/// The number of times that a write-data frame may have been sent in a round that is at another
/// one.
spec fn packet_so_far(packet: int, current: int, attempt: u8) -> int {
    if packet < current {
        MAX_WRITE_PACKET_ATTEMPTS as int
    } else if packet == current {
        attempt as int
    } else {
        0
    }
}

/// The number of times that a frame of a block may be sent: so many times in every round.
pub open spec fn block_frame_allowed() -> int {
    MAX_ATTEMPTS * MAX_WRITE_PACKET_ATTEMPTS
}

/// The action that sends the write command of a block.
pub open spec fn write_command(job: Job, block: Block) -> ActionView {
    send(job.route.request->Ok_0, write_request(block))
}

/// The action that sends a write-data frame of a block.
pub open spec fn write_data(job: Job, block: Block, packet: int) -> ActionView {
    send(job.route.write_data->Ok_0, packet_frame(job.image, block, packet))
}

proof fn lemma_packets_differ(job: Job, block: Block, first: int, second: int)
    requires
        job.has_block(block),
        0 <= first < packet_count(block.length as int),
        0 <= second < packet_count(block.length as int),
        packet_frame(job.image, block, first) == packet_frame(job.image, block, second),
    ensures
        first == second,
{
    assert(packet_frame(job.image, block, first)[0] == packet_sequence(first));
    assert(packet_frame(job.image, block, second)[0] == packet_sequence(second));
}

proof fn lemma_requests_so_far(job: Job, run: Run, step: int, block: Block, n: int)
    requires
        job.is_valid(),
        run.is_of(job),
        0 <= n <= run.events.len(),
        0 <= step < job.plan.len(),
        job.plan[step] == Step::Write(block),
    ensures
        0 <= times(run, step, write_command(job, block), n),
        run.cursors[n].index < step ==> times(run, step, write_command(job, block), n) == 0,
        run.cursors[n].index == step ==> times(run, step, write_command(job, block), n)
            <= requests_so_far(run.cursors[n].phase),
        times(run, step, write_command(job, block), n) <= block_frame_allowed(),
    decreases n,
{
    if n > 0 {
        lemma_requests_so_far(job, run, step, block, n - 1);
        law_steps_are_accomplished_in_order(job, run, n - 1);
        law_steps_are_accomplished_in_order(job, run, n);
        let before = run.cursors[n - 1];
        let after = run.cursors[n];
        let event = run.events[n - 1];
        assert((after, run.actions[n - 1]) == job.advance(before, event));
        if !(before.phase is Finished) {
            job.lemma_advance(before, event);
            job.lemma_enter_fits(job.plan[before.index as int]);
        }
        if after.index == step {
            assert(job.has_block(block));
            if let Phase::Writing { progress: WriteState::SendingPacket { packet, .. }, .. } =
                after.phase {
                lemma_packet_is_no_request(job, block, packet as int);
            }
        }
    }
}

proof fn lemma_packets_so_far(job: Job, run: Run, step: int, block: Block, packet: int, n: int)
    requires
        job.is_valid(),
        run.is_of(job),
        0 <= n <= run.events.len(),
        0 <= step < job.plan.len(),
        job.plan[step] == Step::Write(block),
        0 <= packet < packet_count(block.length as int),
    ensures
        0 <= times(run, step, write_data(job, block, packet), n),
        run.cursors[n].index < step ==> times(run, step, write_data(job, block, packet), n) == 0,
        run.cursors[n].index == step ==> times(run, step, write_data(job, block, packet), n)
            <= packets_so_far(packet, run.cursors[n].phase),
        times(run, step, write_data(job, block, packet), n) <= block_frame_allowed(),
    decreases n,
{
    if n > 0 {
        lemma_packets_so_far(job, run, step, block, packet, n - 1);
        law_steps_are_accomplished_in_order(job, run, n - 1);
        law_steps_are_accomplished_in_order(job, run, n);
        let before = run.cursors[n - 1];
        let after = run.cursors[n];
        let event = run.events[n - 1];
        assert((after, run.actions[n - 1]) == job.advance(before, event));
        if !(before.phase is Finished) {
            job.lemma_advance(before, event);
            job.lemma_enter_fits(job.plan[before.index as int]);
        }
        if after.index == step {
            assert(job.has_block(block));
            lemma_packet_is_no_request(job, block, packet);
            if let Phase::Writing {
                progress: WriteState::SendingPacket { packet: current, .. },
                ..
            } = after.phase {
                if packet_frame(job.image, block, packet) == packet_frame(
                    job.image,
                    block,
                    current as int,
                ) {
                    lemma_packets_differ(job, block, packet, current as int);
                }
            }
        }
    }
}

/// The write command of a block, and each of its write-data frames, is sent no more often than
/// there are rounds and attempts in a round.
pub proof fn law_frames_of_a_block_are_sent_no_more_often_than_tried(
    job: Job,
    run: Run,
    step: int,
    block: Block,
    packet: int,
    n: int,
)
    requires
        job.is_valid(),
        run.is_of(job),
        0 <= n <= run.events.len(),
        0 <= step < job.plan.len(),
        job.plan[step] == Step::Write(block),
        0 <= packet < packet_count(block.length as int),
    ensures
        times(run, step, write_command(job, block), n) <= block_frame_allowed(),
        times(run, step, write_data(job, block, packet), n) <= block_frame_allowed(),
{
    lemma_requests_so_far(job, run, step, block, n);
    lemma_packets_so_far(job, run, step, block, packet, n);
}

proof fn lemma_two_frames(run: Run, step: int, first: int, second: int, n: int)
    requires
        0 <= first < second < n,
        sends(run, step, first),
        sends(run, step, second),
    ensures
        frames_sent(run, step, n) >= 2,
    decreases n,
{
    if second == n - 1 {
        lemma_one_frame(run, step, first, n - 1);
    } else {
        lemma_two_frames(run, step, first, second, n - 1);
    }
}

proof fn lemma_one_frame(run: Run, step: int, first: int, n: int)
    requires
        0 <= first < n,
        sends(run, step, first),
    ensures
        frames_sent(run, step, n) >= 1,
    decreases n,
{
    lemma_frames_not_negative(run, step, n - 1);
    if first < n - 1 {
        lemma_one_frame(run, step, first, n - 1);
    }
}

proof fn lemma_frames_not_negative(run: Run, step: int, n: int)
    ensures
        frames_sent(run, step, n) >= 0,
    decreases n,
{
    if n > 0 {
        lemma_frames_not_negative(run, step, n - 1);
    }
}

/// Whether action `i` is the one that sends the swap command, and nothing is sent behind it.
pub open spec fn is_the_last_frame(job: Job, run: Run, step: int, i: int) -> bool {
    &&& run.requested(job, step, Command::SwapBanks, i)
    &&& forall|k: int| i < k < run.actions.len() ==> !(#[trigger] run.actions[k] is Send)
}

/// An update that succeeds has sent the swap command once, as its last frame. No other frame of it
/// looks like a swap command, unless its boot request does.
pub proof fn law_a_successful_update_swaps_once(
    ecu: EcuDefinition,
    image: Firmware,
    already_in_bootloader: bool,
    run: Run,
    n: int,
)
    requires
        run.is_of(update_job(ecu, image, already_in_bootloader)),
        0 <= n < run.actions.len(),
        run.actions[n] matches ActionView::Finish(Ok(_)),
    ensures
        exists|i: int|
            {
                &&& 0 <= i < n
                &&& #[trigger] is_the_last_frame(
                    update_job(ecu, image, already_in_bootloader),
                    run,
                    swap_step(image.data@.len() as int, already_in_bootloader),
                    i,
                )
                &&& !boot_request_swaps(ecu, already_in_bootloader) ==> forall|k: int|
                    0 <= k < run.actions.len() && (#[trigger] run.actions[k]
                        matches ActionView::Send(frame) && is_swap_frame(ecu, frame)) ==> k == i
            },
{
    let job = update_job(ecu, image, already_in_bootloader);
    let total = image.data@.len() as int;
    let step = swap_step(total, already_in_bootloader);
    let length = run.actions.len() as int;
    assert(image.data.len() <= usize::MAX);
    lemma_update_plan(total, already_in_bootloader);
    lemma_update_job_is_valid(job, already_in_bootloader);
    law_a_successful_update_is_complete(ecu, image, already_in_bootloader, run, n);
    let (i, acknowledged) = choose|i: int, k: int|
        {
            &&& i < k < n + 1
            &&& #[trigger] run.requested(job, step, Command::SwapBanks, i)
            &&& #[trigger] run.acknowledged(job, step, BANK_SWAP, k)
            &&& was_verified(job, run, total, already_in_bootloader, i + 1)
        };
    law_commands_are_sent_no_more_often_than_tried(job, run, step, length);
    assert(sends(run, step, i));
    assert forall|k: int| i < k < length implies !(#[trigger] run.actions[k] is Send) by {
        lemma_index_grows(job, run, i + 1, k + 1);
        law_steps_are_accomplished_in_order(job, run, k);
        law_steps_are_accomplished_in_order(job, run, k + 1);
        assert((run.cursors[k + 1], run.actions[k]) == job.advance(
            run.cursors[k],
            run.events[k],
        ));
        law_frames_belong_to_the_current_step(job, run.cursors[k], run.events[k]);
        if run.actions[k] is Send {
            if run.cursors[k + 1].index == step {
                assert(sends(run, step, k));
                lemma_two_frames(run, step, i, k, length);
            }
        }
    }
    if !boot_request_swaps(ecu, already_in_bootloader) {
        assert forall|k: int|
            0 <= k < length && (#[trigger] run.actions[k] matches ActionView::Send(frame)
                && is_swap_frame(ecu, frame)) implies k == i by {
            lemma_swap_is_sent_in_its_step(ecu, image, already_in_bootloader, run, k);
            assert(sends(run, step, k));
            if k < i {
                lemma_two_frames(run, step, k, i, length);
            }
        }
    }
    assert(is_the_last_frame(job, run, step, i));
}

/// A session never goes back in its plan.
proof fn lemma_index_grows(job: Job, run: Run, first: int, second: int)
    requires
        job.is_valid(),
        run.is_of(job),
        0 <= first <= second <= run.events.len(),
    ensures
        run.cursors[first].index <= run.cursors[second].index,
    decreases second,
{
    if first < second {
        lemma_index_grows(job, run, first, second - 1);
        law_steps_are_accomplished_in_order(job, run, second - 1);
        let before = run.cursors[second - 1];
        let event = run.events[second - 1];
        assert((run.cursors[second], run.actions[second - 1]) == job.advance(before, event));
        if !(before.phase is Finished) {
            job.lemma_advance(before, event);
        }
    }
}

} // verus!
