//! What holds of every update.

use crate::can::FrameView;
use crate::flash::job::{route_of, ActionView, Job};
use crate::flash::plan::{
    block_at, block_count, completion_steps, entry_steps, law_packets_make_up_the_block,
    law_requests_fit_in_a_frame, packet_count, packet_frame, preparation_steps, update_steps,
    write_steps, Command, Step,
};
use crate::flash::run::{
    is_frame_of, law_frames_belong_to_the_current_step, law_steps_are_accomplished_in_order, Run,
};
use crate::flash::{lemma_update_job_is_valid, update_job};
use crate::protocol::{BANK_SWAP, COMPUTE_CRC};
use crate::text::NumberError;
use crate::types::{EcuDefinition, Firmware, PayloadError};
use vstd::prelude::*;

verus! {

/// The number of steps before the first block of an update.
pub open spec fn steps_before_blocks(already_in_bootloader: bool) -> int {
    (entry_steps(already_in_bootloader).len() + preparation_steps().len()) as int
}

/// The step of an update that writes a block.
pub open spec fn block_step(already_in_bootloader: bool, index: int) -> int {
    steps_before_blocks(already_in_bootloader) + 2 * index
}

/// The step of an update that has the bootloader compute the CRC.
pub open spec fn crc_step(total: int, already_in_bootloader: bool) -> int {
    steps_before_blocks(already_in_bootloader) + 2 * block_count(total) + 1
}

/// The step of an update that swaps the banks.
pub open spec fn swap_step(total: int, already_in_bootloader: bool) -> int {
    crc_step(total, already_in_bootloader) + 2
}

/// Where the steps of an update are: every block has one, and behind the blocks the CRC is
/// verified and the banks are swapped, once.
pub proof fn lemma_update_plan(total: int, already_in_bootloader: bool)
    requires
        0 <= total <= usize::MAX,
    ensures
        ({
            let plan = update_steps(total, already_in_bootloader);
            &&& plan.len() == swap_step(total, already_in_bootloader) + 2
            &&& plan.len() <= usize::MAX
            &&& forall|index: int|
                0 <= index < block_count(total) ==> #[trigger] plan[block_step(
                    already_in_bootloader,
                    index,
                )] == Step::Write(block_at(total, index))
            &&& plan[crc_step(total, already_in_bootloader)] == Step::Exchange(Command::ComputeCrc)
            &&& forall|step: int|
                0 <= step < plan.len() && #[trigger] plan[step] == Step::Exchange(
                    Command::SwapBanks,
                ) ==> step == swap_step(total, already_in_bootloader)
            &&& plan[swap_step(total, already_in_bootloader)] == Step::Exchange(Command::SwapBanks)
            &&& plan[swap_step(total, already_in_bootloader) + 1] is Report
        }),
{
    let plan = update_steps(total, already_in_bootloader);
    let before = entry_steps(already_in_bootloader) + preparation_steps();
    let writes = write_steps(total);
    let after = completion_steps();
    assert(before.len() == steps_before_blocks(already_in_bootloader));
    assert(writes.len() == 2 * block_count(total));
    assert forall|index: int| 0 <= index < block_count(total) implies #[trigger] plan[block_step(
        already_in_bootloader,
        index,
    )] == Step::Write(block_at(total, index)) by {
        assert(plan[before.len() + 2 * index] == writes[2 * index]);
        assert((2 * index) / 2 == index);
    }
    assert(plan[crc_step(total, already_in_bootloader)] == after[1]);
    assert(plan[swap_step(total, already_in_bootloader)] == after[3]);
    assert(plan[swap_step(total, already_in_bootloader) + 1] == after[4]);
    assert forall|step: int|
        0 <= step < plan.len() && #[trigger] plan[step] == Step::Exchange(
            Command::SwapBanks,
        ) implies step == swap_step(total, already_in_bootloader) by {
        if step < before.len() {
            assert(plan[step] == before[step]);
        } else if step < before.len() + writes.len() {
            assert(plan[step] == writes[step - before.len()]);
        } else {
            assert(plan[step] == after[step - before.len() - writes.len()]);
        }
    }
}

/// Only the swap command looks like the swap command.
proof fn lemma_swap_frame(job: Job, step: Step, frame: FrameView)
    requires
        is_frame_of(job, step, frame),
        frame.data == seq![BANK_SWAP],
        step matches Step::Write(block) ==> job.has_block(block),
    ensures
        step == Step::Exchange(Command::SwapBanks) || (step is RequestBootloader
            && job.route.boot_request == Ok::<_, NumberError>(frame.id) && job.route.boot_payload
            == Ok::<_, PayloadError>(seq![BANK_SWAP])),
{
    assert(frame.data[0] == BANK_SWAP && frame.data.len() == 1);
    match step {
        Step::Exchange(command) => {
            law_requests_fit_in_a_frame(command, job.image.len() as int, job.crc, block_at(0, 0));
        },
        Step::Write(block) => {
            law_requests_fit_in_a_frame(Command::Ping, 0, 0, block);
            assert forall|packet: int|
                0 <= packet < packet_count(block.length as int) implies frame.data
                != #[trigger] packet_frame(job.image, block, packet) by {
                law_packets_make_up_the_block(job.image, block, packet);
            }
        },
        _ => {},
    }
}

/// Whether every block of the image was written before event `n`.
pub open spec fn is_written(
    job: Job,
    run: Run,
    total: int,
    already_in_bootloader: bool,
    n: int,
) -> bool {
    forall|index: int|
        0 <= index < block_count(total) ==> #[trigger] run.written(
            job,
            block_step(already_in_bootloader, index),
            block_at(total, index),
            n,
        )
}

/// Whether the CRC command that was sent by action `i` was acknowledged, and the CRC of the image
/// was then reported, before event `n`.
pub open spec fn crc_was_reported(job: Job, run: Run, step: int, i: int, n: int) -> bool {
    exists|k: int, m: int|
        i < k < m < n && #[trigger] run.acknowledged(job, step, COMPUTE_CRC, k)
            && #[trigger] run.responded(job, step, Command::ComputeCrc, m)
}

/// Whether the image was verified before event `n`: every block was written, then the CRC command
/// was sent, and then the bootloader acknowledged it and reported the CRC of the image.
pub open spec fn was_verified(
    job: Job,
    run: Run,
    total: int,
    already_in_bootloader: bool,
    n: int,
) -> bool {
    let step = crc_step(total, already_in_bootloader);
    exists|i: int|
        {
            &&& #[trigger] run.requested(job, step, Command::ComputeCrc, i)
            &&& is_written(job, run, total, already_in_bootloader, i + 1)
            &&& crc_was_reported(job, run, step, i, n)
        }
}

/// Whether the banks were swapped before event `n`: the image was verified, then the swap command
/// was sent, and then the bootloader acknowledged it.
pub open spec fn was_swapped(
    job: Job,
    run: Run,
    total: int,
    already_in_bootloader: bool,
    n: int,
) -> bool {
    let step = swap_step(total, already_in_bootloader);
    exists|i: int, k: int|
        {
            &&& i < k < n
            &&& #[trigger] run.requested(job, step, Command::SwapBanks, i)
            &&& #[trigger] run.acknowledged(job, step, BANK_SWAP, k)
            &&& was_verified(job, run, total, already_in_bootloader, i + 1)
        }
}

/// Whether a frame is a swap command to an ECU.
pub open spec fn is_swap_frame(ecu: EcuDefinition, frame: FrameView) -> bool {
    route_of(ecu).request == Ok::<_, NumberError>(frame.id) && frame.data == seq![BANK_SWAP]
}

/// Whether the boot request that opens an update is, byte for byte, a swap command.
pub open spec fn boot_request_swaps(ecu: EcuDefinition, already_in_bootloader: bool) -> bool {
    &&& !already_in_bootloader
    &&& route_of(ecu).boot_request == route_of(ecu).request
    &&& route_of(ecu).boot_payload == Ok::<_, PayloadError>(seq![BANK_SWAP])
}

proof fn lemma_written(
    job: Job,
    run: Run,
    total: int,
    already_in_bootloader: bool,
    n: int,
)
    requires
        job.is_valid(),
        run.is_of(job),
        job.plan == update_steps(total, already_in_bootloader),
        0 <= total <= usize::MAX,
        0 <= n <= run.events.len(),
        run.cursors[n].index >= crc_step(total, already_in_bootloader),
    ensures
        is_written(job, run, total, already_in_bootloader, n),
{
    lemma_update_plan(total, already_in_bootloader);
    law_steps_are_accomplished_in_order(job, run, n);
    assert forall|index: int| 0 <= index < block_count(total) implies #[trigger] run.written(
        job,
        block_step(already_in_bootloader, index),
        block_at(total, index),
        n,
    ) by {
        assert(run.accomplished(job, block_step(already_in_bootloader, index), n));
    }
}

proof fn lemma_verified(
    job: Job,
    run: Run,
    total: int,
    already_in_bootloader: bool,
    n: int,
)
    requires
        job.is_valid(),
        run.is_of(job),
        job.plan == update_steps(total, already_in_bootloader),
        0 <= total <= usize::MAX,
        0 <= n <= run.events.len(),
        run.cursors[n].index > crc_step(total, already_in_bootloader),
    ensures
        was_verified(job, run, total, already_in_bootloader, n),
{
    let step = crc_step(total, already_in_bootloader);
    lemma_update_plan(total, already_in_bootloader);
    law_steps_are_accomplished_in_order(job, run, n);
    assert(run.accomplished(job, step, n));
    let command = Command::ComputeCrc;
    let k = choose|k: int|
        k < n && #[trigger] run.accepted(job, step, command, k) && (
        command.response_length() is Some ==> exists|m: int|
            k < m < n && #[trigger] run.responded(job, step, command, m) && run.is_one_attempt(
                job,
                step,
                command,
                k,
                m,
            ));
    let m = choose|m: int|
        k < m < n && #[trigger] run.responded(job, step, command, m) && run.is_one_attempt(
            job,
            step,
            command,
            k,
            m,
        );
    let i = choose|i: int| i < k && #[trigger] run.requested(job, step, command, i);
    assert(run.acknowledged(job, step, COMPUTE_CRC, k));
    assert(crc_was_reported(job, run, step, i, n));
    lemma_written(job, run, total, already_in_bootloader, i + 1);
}

/// A swap command that is sent belongs to the step that swaps the banks.
pub proof fn lemma_swap_is_sent_in_its_step(
    ecu: EcuDefinition,
    image: Firmware,
    already_in_bootloader: bool,
    run: Run,
    n: int,
)
    requires
        run.is_of(update_job(ecu, image, already_in_bootloader)),
        0 <= n < run.actions.len(),
        run.actions[n] matches ActionView::Send(frame) && is_swap_frame(ecu, frame),
        !boot_request_swaps(ecu, already_in_bootloader),
    ensures
        run.cursors[n + 1].index == swap_step(image.data@.len() as int, already_in_bootloader),
{
    let job = update_job(ecu, image, already_in_bootloader);
    let total = image.data@.len() as int;
    assert(image.data.len() <= usize::MAX);
    lemma_update_plan(total, already_in_bootloader);
    lemma_update_job_is_valid(job, already_in_bootloader);
    law_steps_are_accomplished_in_order(job, run, n);
    law_steps_are_accomplished_in_order(job, run, n + 1);
    assert((run.cursors[n + 1], run.actions[n]) == job.advance(run.cursors[n], run.events[n]));
    law_frames_belong_to_the_current_step(job, run.cursors[n], run.events[n]);
    let frame = run.actions[n]->Send_0;
    let step = run.cursors[n + 1].index as int;
    assert(job.plan[step] matches Step::Write(block) ==> job.has_block(block));
    lemma_swap_frame(job, job.plan[step], frame);
    if job.plan[step] is RequestBootloader {
        lemma_no_boot_request(total, step);
    }
}

/// In the course of an update the command to swap the banks is sent only when every block of the
/// image was written and acknowledged, the CRC command was sent behind that, and the bootloader
/// then reported the CRC of the image.
///
/// An ECU whose boot request is, byte for byte, a swap command is left out, unless its bootloader
/// runs already: its boot request opens the update.
pub proof fn law_banks_are_swapped_only_after_verification(
    ecu: EcuDefinition,
    image: Firmware,
    already_in_bootloader: bool,
    run: Run,
    n: int,
)
    requires
        run.is_of(update_job(ecu, image, already_in_bootloader)),
        0 <= n < run.actions.len(),
        run.actions[n] matches ActionView::Send(frame) && is_swap_frame(ecu, frame),
        !boot_request_swaps(ecu, already_in_bootloader),
    ensures
        was_verified(
            update_job(ecu, image, already_in_bootloader),
            run,
            image.data@.len() as int,
            already_in_bootloader,
            n + 1,
        ),
{
    let job = update_job(ecu, image, already_in_bootloader);
    let total = image.data@.len() as int;
    assert(image.data.len() <= usize::MAX);
    lemma_update_plan(total, already_in_bootloader);
    lemma_update_job_is_valid(job, already_in_bootloader);
    lemma_swap_is_sent_in_its_step(ecu, image, already_in_bootloader, run, n);
    lemma_verified(job, run, total, already_in_bootloader, n + 1);
}

/// An update that starts in the bootloader sends no boot request.
proof fn lemma_no_boot_request(total: int, step: int)
    requires
        0 <= total <= usize::MAX,
        0 <= step < update_steps(total, true).len(),
    ensures
        !(update_steps(total, true)[step] is RequestBootloader),
{
    let plan = update_steps(total, true);
    let before = entry_steps(true) + preparation_steps();
    let writes = write_steps(total);
    if step < before.len() {
        assert(plan[step] == before[step]);
    } else if step < before.len() + writes.len() {
        assert(plan[step] == writes[step - before.len()]);
    } else {
        assert(plan[step] == completion_steps()[step - before.len() - writes.len()]);
    }
}

/// An update that succeeds has written every block of the image, then had the CRC verified, and
/// then the banks swapped, and the bootloader has acknowledged all of it.
pub proof fn law_a_successful_update_is_complete(
    ecu: EcuDefinition,
    image: Firmware,
    already_in_bootloader: bool,
    run: Run,
    n: int,
)
    requires
        run.is_of(update_job(ecu, image, already_in_bootloader)),
        0 <= n < run.actions.len(),
        run.actions[n] matches ActionView::Finish(Ok(_)),
    ensures
        was_swapped(
            update_job(ecu, image, already_in_bootloader),
            run,
            image.data@.len() as int,
            already_in_bootloader,
            n + 1,
        ),
{
    let job = update_job(ecu, image, already_in_bootloader);
    let total = image.data@.len() as int;
    let step = swap_step(total, already_in_bootloader);
    let command = Command::SwapBanks;
    assert(image.data.len() <= usize::MAX);
    lemma_update_plan(total, already_in_bootloader);
    lemma_update_job_is_valid(job, already_in_bootloader);
    law_steps_are_accomplished_in_order(job, run, n + 1);
    assert(run.accomplished(job, step, n + 1));
    assert(run.exchanged(job, step, command, n + 1));
    let k = choose|k: int| k < n + 1 && #[trigger] run.accepted(job, step, command, k);
    assert(run.accepted(job, step, command, k));
    let i = choose|i: int| i < k && #[trigger] run.requested(job, step, command, i);
    assert(run.acknowledged(job, step, BANK_SWAP, k));
    lemma_verified(job, run, total, already_in_bootloader, i + 1);
}

} // verus!
