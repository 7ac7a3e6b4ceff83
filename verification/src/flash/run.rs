//! The course of a session: what has happened on the bus when it stands where it stands.

use crate::can::FrameView;
use crate::flash::job::{
    send, ActionView, Cursor, EventView, ExchangeState, Job, Phase, TurnView, WriteState,
};
use crate::flash::plan::{
    packet_count, packet_frame, packet_sequence, write_request, Block, Command, ImageTooLong, Step,
    BOOT_DELAY,
};
use crate::flash::reply::{command_status, is_response, packet_status, reported_crc, AckStatus};
use crate::protocol::WRITE_MEMORY;
use crate::text::NumberError;
use crate::types::PayloadError;
use vstd::prelude::*;

verus! {

/// A session from its start: the events that it was told, the action that it gave for each of
/// them, and where it stood before the first event and behind each.
pub struct Run {
    pub cursors: Seq<Cursor>,
    pub events: Seq<EventView>,
    pub actions: Seq<ActionView>,
}

impl Run {
    /// Whether a session with this job can go this way.
    pub open spec fn is_of(self, job: Job) -> bool {
        &&& self.actions.len() == self.events.len()
        &&& self.cursors.len() == self.events.len() + 1
        &&& self.cursors[0] == Job::start()
        &&& forall|i: int|
            #![trigger self.events[i]]
            #![trigger self.actions[i]]
            0 <= i < self.events.len() ==> (self.cursors[i + 1], self.actions[i]) == job.advance(
                self.cursors[i],
                self.events[i],
            )
    }

    /// Whether action `i` is this one, and part of this step.
    pub open spec fn did(self, step: int, action: ActionView, i: int) -> bool {
        0 <= i < self.actions.len() && self.cursors[i + 1].index == step && self.actions[i]
            == action
    }

    /// Whether event `i` is the reception of a frame, in the course of this step.
    pub open spec fn got(self, step: int, frame: FrameView, i: int) -> bool {
        0 <= i < self.events.len() && self.cursors[i].index == step && self.events[i]
            == EventView::Received(frame)
    }

    /// Whether event `i` acknowledges a command.
    pub open spec fn acknowledged(self, job: Job, step: int, command: u8, i: int) -> bool {
        exists|frame: FrameView|
            #[trigger] self.got(step, frame, i) && job.route.response is Ok && command_status(
                frame,
                job.route.response->Ok_0,
                command,
            ) == Some(AckStatus::Ack)
    }

    /// Whether event `i` acknowledges a write-data frame.
    pub open spec fn packet_acknowledged(self, job: Job, step: int, packet: int, i: int) -> bool {
        exists|frame: FrameView|
            #[trigger] self.got(step, frame, i) && job.route.response is Ok && packet_status(
                frame,
                job.route.response->Ok_0,
                packet_sequence(packet),
            ) == Some(AckStatus::Ack)
    }

    /// Whether event `i` is the response to a command, with the CRC of the image where a CRC was
    /// asked for.
    pub open spec fn responded(self, job: Job, step: int, command: Command, i: int) -> bool {
        exists|frame: FrameView|
            #[trigger] self.got(step, frame, i) && job.route.response is Ok && is_response(
                frame,
                job.route.response->Ok_0,
                command.opcode(),
                command.response_length()->0 as int,
            ) && (command is ComputeCrc ==> reported_crc(frame.data) == job.crc)
    }

    /// Whether action `i` sends a command.
    pub open spec fn requested(self, job: Job, step: int, command: Command, i: int) -> bool {
        &&& job.route.request is Ok
        &&& command.spec_request(job.image.len() as int, job.crc) is Ok
        &&& self.did(
            step,
            send(
                job.route.request->Ok_0,
                command.spec_request(job.image.len() as int, job.crc)->Ok_0,
            ),
            i,
        )
    }

    /// Whether action `i` sends the write command for a block.
    pub open spec fn write_requested(self, job: Job, step: int, block: Block, i: int) -> bool {
        job.route.request is Ok && self.did(
            step,
            send(job.route.request->Ok_0, write_request(block)),
            i,
        )
    }

    /// Whether action `i` sends a write-data frame of a block.
    pub open spec fn packet_sent(
        self,
        job: Job,
        step: int,
        block: Block,
        packet: int,
        i: int,
    ) -> bool {
        job.route.write_data is Ok && self.did(
            step,
            send(job.route.write_data->Ok_0, packet_frame(job.image, block, packet)),
            i,
        )
    }

    /// Whether a command was sent and then acknowledged by event `k`.
    pub open spec fn accepted(self, job: Job, step: int, command: Command, k: int) -> bool {
        self.acknowledged(job, step, command.opcode(), k) && self.was_requested(
            job,
            step,
            command,
            k,
        )
    }

    /// Whether no command was sent from event `from` on and before event `to`.
    pub open spec fn is_one_attempt(
        self,
        job: Job,
        step: int,
        command: Command,
        from: int,
        to: int,
    ) -> bool {
        forall|i: int| from <= i < to ==> !(#[trigger] self.requested(job, step, command, i))
    }

    /// Whether a command was sent and then acknowledged before event `n`, in the attempt that goes
    /// on.
    pub open spec fn was_accepted(self, job: Job, step: int, command: Command, n: int) -> bool {
        exists|k: int|
            k < n && #[trigger] self.accepted(job, step, command, k) && self.is_one_attempt(
                job,
                step,
                command,
                k,
                n,
            )
    }

    /// Whether a command was sent, then acknowledged, and then responded to in the same attempt
    /// where a response is due, all before event `n`.
    pub open spec fn exchanged(self, job: Job, step: int, command: Command, n: int) -> bool {
        exists|k: int|
            k < n && #[trigger] self.accepted(job, step, command, k) && (
            command.response_length() is Some ==> exists|m: int|
                k < m < n && #[trigger] self.responded(job, step, command, m)
                    && self.is_one_attempt(job, step, command, k, m))
    }

    /// Whether a command was sent before event `n`.
    pub open spec fn was_requested(self, job: Job, step: int, command: Command, n: int) -> bool {
        exists|i: int| i < n && #[trigger] self.requested(job, step, command, i)
    }

    /// Whether the write command for a block was sent before event `n`.
    pub open spec fn write_was_requested(self, job: Job, step: int, block: Block, n: int) -> bool {
        exists|i: int| i < n && #[trigger] self.write_requested(job, step, block, i)
    }

    /// Whether a write-data frame was sent behind event `after` and before event `n`.
    pub open spec fn packet_was_sent(
        self,
        job: Job,
        step: int,
        block: Block,
        packet: int,
        after: int,
        n: int,
    ) -> bool {
        exists|i: int| after <= i < n && #[trigger] self.packet_sent(job, step, block, packet, i)
    }

    /// Whether no write command for a block was sent from event `from` on and before event `to`: a
    /// block that is started anew is started with its write command.
    pub open spec fn is_one_round(
        self,
        job: Job,
        step: int,
        block: Block,
        from: int,
        to: int,
    ) -> bool {
        forall|i: int|
            from <= i < to ==> !(#[trigger] self.write_requested(job, step, block, i))
    }

    /// Whether a write-data frame was sent behind event `after`, and then acknowledged by event
    /// `k`, in the same round.
    pub open spec fn packet_delivered(
        self,
        job: Job,
        step: int,
        block: Block,
        packet: int,
        after: int,
        k: int,
    ) -> bool {
        self.packet_acknowledged(job, step, packet, k) && self.packet_was_sent(
            job,
            step,
            block,
            packet,
            after,
            k,
        ) && self.is_one_round(job, step, block, after, k)
    }

    /// Whether the write command for a block and then its first `count` write-data frames were
    /// sent in one round, each one behind the acknowledgement of the one before it, and the last
    /// was acknowledged by event `k`.
    #[verifier::opaque]
    pub open spec fn delivered(
        self,
        job: Job,
        step: int,
        block: Block,
        count: int,
        k: int,
    ) -> bool
        decreases count,
    {
        if count <= 0 {
            self.acknowledged(job, step, WRITE_MEMORY, k) && self.write_was_requested(
                job,
                step,
                block,
                k,
            )
        } else {
            exists|j: int|
                self.delivered(job, step, block, count - 1, j) && #[trigger] self.packet_delivered(
                    job,
                    step,
                    block,
                    count - 1,
                    j,
                    k,
                )
        }
    }

    /// Whether a block was delivered up to a write-data frame before event `n`, in the round that
    /// goes on.
    pub open spec fn was_delivered(
        self,
        job: Job,
        step: int,
        block: Block,
        count: int,
        n: int,
    ) -> bool {
        exists|j: int|
            j < n && #[trigger] self.delivered(job, step, block, count, j) && self.is_one_round(
                job,
                step,
                block,
                j,
                n,
            )
    }

    /// Whether a block was delivered up to a write-data frame, which was then sent, before event
    /// `n`, in the round that goes on.
    pub open spec fn packet_is_out(
        self,
        job: Job,
        step: int,
        block: Block,
        packet: int,
        n: int,
    ) -> bool {
        exists|j: int|
            j < n && self.delivered(job, step, block, packet, j) && #[trigger] self.packet_was_sent(
                job,
                step,
                block,
                packet,
                j,
                n,
            ) && self.is_one_round(job, step, block, j, n)
    }

    /// Whether a block was delivered whole, and the whole was then acknowledged, in one round and
    /// before event `n`.
    pub open spec fn written(self, job: Job, step: int, block: Block, n: int) -> bool {
        exists|j: int, k: int|
            j < k < n && #[trigger] self.delivered(
                job,
                step,
                block,
                packet_count(block.length as int),
                j,
            ) && #[trigger] self.acknowledged(job, step, WRITE_MEMORY, k) && self.is_one_round(
                job,
                step,
                block,
                j,
                k,
            )
    }

    /// Whether an action of a step came before event `n`.
    pub open spec fn was_done(self, step: int, action: ActionView, n: int) -> bool {
        exists|i: int| i < n && #[trigger] self.did(step, action, i)
    }

    /// Whether all that a step is about happened before event `n`.
    pub open spec fn accomplished(self, job: Job, step: int, n: int) -> bool {
        match job.plan[step] {
            Step::Report(stage) => self.was_done(step, ActionView::Report(stage), n),
            Step::RequestBootloader => {
                &&& job.route.boot_request is Ok
                &&& job.route.boot_payload is Ok
                &&& self.was_done(
                    step,
                    send(job.route.boot_request->Ok_0, job.route.boot_payload->Ok_0),
                    n,
                )
            },
            Step::BootDelay => self.was_done(step, ActionView::Sleep(BOOT_DELAY), n),
            Step::Exchange(command) => self.exchanged(job, step, command, n),
            Step::Write(block) => self.written(job, step, block, n),
        }
    }

    /// What of the current step happened before event `n`.
    pub open spec fn under_way(self, job: Job, n: int) -> bool {
        let step = self.cursors[n].index as int;
        match self.cursors[n].phase {
            Phase::Reporting | Phase::RequestingBootloader | Phase::Delaying => self.accomplished(
                job,
                step,
                n,
            ),
            Phase::Exchanging { command, state, .. } => match state {
                ExchangeState::Sending => self.was_requested(job, step, command, n),
                ExchangeState::AwaitingAck => self.was_requested(job, step, command, n),
                ExchangeState::AwaitingResponse => self.was_accepted(job, step, command, n),
                _ => true,
            },
            Phase::Writing { block, progress, .. } => match progress {
                WriteState::SendingRequest { .. } => self.write_was_requested(job, step, block, n),
                WriteState::AwaitingRequestAck { .. } => self.write_was_requested(
                    job,
                    step,
                    block,
                    n,
                ),
                WriteState::SendingPacket { packet, .. } => self.packet_is_out(
                    job,
                    step,
                    block,
                    packet as int,
                    n,
                ),
                WriteState::AwaitingPacketAck { packet, .. } => self.packet_is_out(
                    job,
                    step,
                    block,
                    packet as int,
                    n,
                ),
                WriteState::PacketBackingOff { packet, .. } => self.was_delivered(
                    job,
                    step,
                    block,
                    packet as int,
                    n,
                ),
                WriteState::AwaitingFinalAck => self.was_delivered(
                    job,
                    step,
                    block,
                    packet_count(block.length as int),
                    n,
                ),
                _ => true,
            },
            _ => true,
        }
    }

    /// Whether a session stands where it can stand before event `n`, with all earlier steps
    /// accomplished.
    pub open spec fn is_sound(self, job: Job, n: int) -> bool {
        let cursor = self.cursors[n];
        &&& job.cursor_fits(cursor)
        &&& forall|step: int|
            0 <= step < cursor.index ==> #[trigger] self.accomplished(job, step, n)
        &&& self.under_way(job, n)
        &&& cursor.phase matches Phase::Finished { result: Ok(info) } ==> {
            &&& cursor.index == job.plan.len() - 1
            &&& cursor.info == info
            &&& self.accomplished(job, cursor.index as int, n)
        }
    }
}

/// What has happened stays so.
proof fn lemma_accomplished_stays(job: Job, run: Run, step: int, n: int)
    requires
        run.accomplished(job, step, n),
    ensures
        run.accomplished(job, step, n + 1),
{
    match job.plan[step] {
        Step::Exchange(command) => {
            let k = choose|k: int|
                k < n && #[trigger] run.accepted(job, step, command, k) && (
                command.response_length() is Some ==> exists|m: int|
                    k < m < n && #[trigger] run.responded(job, step, command, m)
                        && run.is_one_attempt(job, step, command, k, m));
            assert(run.accepted(job, step, command, k));
        },
        _ => {},
    }
}

/// A step that starts is under way.
proof fn lemma_entering(job: Job, run: Run, n: int)
    requires
        run.is_of(job),
        0 <= n < run.events.len(),
        job.enter(job.plan[run.cursors[n + 1].index as int]) == (TurnView::Go {
            phase: run.cursors[n + 1].phase,
            action: run.actions[n],
        }),
    ensures
        run.under_way(job, n + 1),
{
    let step = run.cursors[n + 1].index as int;
    assert(run.did(step, run.actions[n], n));
}

/// A command that goes on is under way.
proof fn lemma_exchange_goes(job: Job, run: Run, n: int)
    requires
        run.is_of(job),
        job.is_valid(),
        0 <= n < run.events.len(),
        job.cursor_fits(run.cursors[n]),
        run.under_way(job, n),
        run.cursors[n + 1].index == run.cursors[n].index,
        run.cursors[n].phase is Exchanging,
        job.react(run.cursors[n].phase, run.events[n]) == (TurnView::Go {
            phase: run.cursors[n + 1].phase,
            action: run.actions[n],
        }),
    ensures
        run.under_way(job, n + 1),
{
    let step = run.cursors[n].index as int;
    assert(run.did(step, run.actions[n], n));
    if let Phase::Exchanging { command, attempt, state } = run.cursors[n].phase {
        assert(run.actions[n] is Send ==> run.requested(job, step, command, n));
        if let EventView::Received(frame) = run.events[n] {
            assert(run.got(step, frame, n));
            if state is AwaitingAck && run.cursors[n + 1].phase->state is AwaitingResponse {
                assert(run.acknowledged(job, step, command.opcode(), n));
                assert(run.accepted(job, step, command, n));
                assert(run.is_one_attempt(job, step, command, n, n + 1));
            }
        }
        if state is AwaitingResponse && run.cursors[n + 1].phase->state is AwaitingResponse {
            let k = choose|k: int|
                k < n && #[trigger] run.accepted(job, step, command, k) && run.is_one_attempt(
                    job,
                    step,
                    command,
                    k,
                    n,
                );
            assert(run.accepted(job, step, command, k));
            assert(run.is_one_attempt(job, step, command, k, n + 1));
        }
    }
}

/// The write command is delivered once it is acknowledged.
proof fn lemma_delivery_starts(job: Job, run: Run, step: int, block: Block, k: int)
    requires
        run.write_was_requested(job, step, block, k),
        run.acknowledged(job, step, WRITE_MEMORY, k),
    ensures
        run.delivered(job, step, block, 0, k),
{
    reveal(Run::delivered);
}

/// A write-data frame is delivered once it is acknowledged.
proof fn lemma_delivery_continues(
    job: Job,
    run: Run,
    step: int,
    block: Block,
    count: int,
    k: int,
)
    requires
        count >= 1,
        run.packet_is_out(job, step, block, count - 1, k),
        run.packet_acknowledged(job, step, count - 1, k),
    ensures
        run.delivered(job, step, block, count, k),
{
    reveal(Run::delivered);
    let j = choose|j: int|
        j < k && run.delivered(job, step, block, count - 1, j) && #[trigger] run.packet_was_sent(
            job,
            step,
            block,
            count - 1,
            j,
            k,
        ) && run.is_one_round(job, step, block, j, k);
    assert(run.packet_delivered(job, step, block, count - 1, j, k));
}

/// A write-data frame that was sent stays sent.
proof fn lemma_packet_stays_out(
    job: Job,
    run: Run,
    step: int,
    block: Block,
    packet: int,
    n: int,
)
    requires
        run.packet_is_out(job, step, block, packet, n),
        !run.write_requested(job, step, block, n),
    ensures
        run.packet_is_out(job, step, block, packet, n + 1),
        run.was_delivered(job, step, block, packet, n + 1),
{
    let j = choose|j: int|
        j < n && run.delivered(job, step, block, packet, j) && #[trigger] run.packet_was_sent(
            job,
            step,
            block,
            packet,
            j,
            n,
        ) && run.is_one_round(job, step, block, j, n);
    assert(run.packet_was_sent(job, step, block, packet, j, n + 1));
    assert(run.is_one_round(job, step, block, j, n + 1));
}

/// A write-data frame is no write command: its number is too small.
pub proof fn lemma_packet_is_no_request(job: Job, block: Block, packet: int)
    requires
        job.has_block(block),
        0 <= packet < packet_count(block.length as int),
    ensures
        packet_frame(job.image, block, packet) != write_request(block),
{
    assert(packet_frame(job.image, block, packet)[0] == packet_sequence(packet));
    assert(write_request(block)[0] == WRITE_MEMORY);
}

/// What was delivered stays so while the round goes on.
proof fn lemma_delivery_stays(
    job: Job,
    run: Run,
    step: int,
    block: Block,
    count: int,
    n: int,
)
    requires
        run.was_delivered(job, step, block, count, n) || run.delivered(job, step, block, count, n),
        !run.write_requested(job, step, block, n),
    ensures
        run.was_delivered(job, step, block, count, n + 1),
{
    if run.was_delivered(job, step, block, count, n) {
        let j = choose|j: int|
            j < n && #[trigger] run.delivered(job, step, block, count, j) && run.is_one_round(
                job,
                step,
                block,
                j,
                n,
            );
        assert(run.is_one_round(job, step, block, j, n + 1));
        assert(run.delivered(job, step, block, count, j));
    } else {
        assert(run.is_one_round(job, step, block, n, n + 1));
    }
}

/// A write-data frame that is sent is out.
proof fn lemma_packet_goes_out(
    job: Job,
    run: Run,
    step: int,
    block: Block,
    packet: int,
    n: int,
)
    requires
        run.was_delivered(job, step, block, packet, n + 1),
        run.packet_sent(job, step, block, packet, n),
    ensures
        run.packet_is_out(job, step, block, packet, n + 1),
{
    let j = choose|j: int|
        j < n + 1 && #[trigger] run.delivered(job, step, block, packet, j) && run.is_one_round(
            job,
            step,
            block,
            j,
            n + 1,
        );
    assert(run.packet_was_sent(job, step, block, packet, j, n + 1));
}

/// A block that goes on is under way.
proof fn lemma_write_goes(job: Job, run: Run, n: int)
    requires
        run.is_of(job),
        job.is_valid(),
        0 <= n < run.events.len(),
        job.cursor_fits(run.cursors[n]),
        run.under_way(job, n),
        run.cursors[n + 1].index == run.cursors[n].index,
        run.cursors[n].phase is Writing,
        job.react(run.cursors[n].phase, run.events[n]) == (TurnView::Go {
            phase: run.cursors[n + 1].phase,
            action: run.actions[n],
        }),
    ensures
        run.under_way(job, n + 1),
{
    let step = run.cursors[n].index as int;
    assert(run.did(step, run.actions[n], n));
    if let Phase::Writing { block, round, progress } = run.cursors[n].phase {
        assert(job.plan[step] == Step::Write(block));
        assert(job.has_block(block));
        match progress {
            WriteState::Clearing => {
                assert(run.write_requested(job, step, block, n));
            },
            WriteState::RequestBackingOff { .. } => {
                assert(run.write_requested(job, step, block, n));
            },
            WriteState::AwaitingRequestAck { .. } => {
                if let EventView::Received(frame) = run.events[n] {
                    assert(run.got(step, frame, n));
                    if run.cursors[n + 1].phase->progress is SendingPacket {
                        assert(run.acknowledged(job, step, WRITE_MEMORY, n));
                        lemma_delivery_starts(job, run, step, block, n);
                        lemma_packet_is_no_request(job, block, 0);
                        lemma_delivery_stays(job, run, step, block, 0, n);
                        assert(run.packet_sent(job, step, block, 0, n));
                        lemma_packet_goes_out(job, run, step, block, 0, n);
                    }
                }
            },
            WriteState::SendingPacket { packet, .. } => {
                lemma_packet_stays_out(job, run, step, block, packet as int, n);
            },
            WriteState::AwaitingPacketAck { packet, .. } => {
                if packet + 1 < packet_count(block.length as int) {
                    lemma_packet_is_no_request(job, block, packet + 1);
                }
                lemma_packet_stays_out(job, run, step, block, packet as int, n);
                if let EventView::Received(frame) = run.events[n] {
                    assert(run.got(step, frame, n));
                    let next = run.cursors[n + 1].phase->progress;
                    if next is SendingPacket || next is AwaitingFinalAck {
                        assert(run.packet_acknowledged(job, step, packet as int, n));
                        lemma_delivery_continues(job, run, step, block, packet + 1, n);
                        lemma_delivery_stays(job, run, step, block, packet + 1, n);
                        if next is SendingPacket {
                            assert(run.packet_sent(job, step, block, packet + 1, n));
                            lemma_packet_goes_out(job, run, step, block, packet + 1, n);
                        } else {
                            assert(packet + 1 == packet_count(block.length as int));
                        }
                    }
                }
            },
            WriteState::PacketBackingOff { packet, .. } => {
                lemma_packet_is_no_request(job, block, packet as int);
                lemma_delivery_stays(job, run, step, block, packet as int, n);
                assert(run.packet_sent(job, step, block, packet as int, n));
                lemma_packet_goes_out(job, run, step, block, packet as int, n);
            },
            WriteState::AwaitingFinalAck => {
                if run.cursors[n + 1].phase->progress is AwaitingFinalAck {
                    lemma_delivery_stays(
                        job,
                        run,
                        step,
                        block,
                        packet_count(block.length as int),
                        n,
                    );
                }
            },
            _ => {},
        }
    }
}

/// A step that is done is accomplished.
proof fn lemma_done(job: Job, run: Run, n: int)
    requires
        run.is_of(job),
        job.is_valid(),
        0 <= n < run.events.len(),
        job.cursor_fits(run.cursors[n]),
        run.under_way(job, n),
        !(run.cursors[n].phase is Ready),
        !(run.cursors[n].phase is Finished),
        job.react(run.cursors[n].phase, run.events[n]) is Done,
    ensures
        run.accomplished(job, run.cursors[n].index as int, n + 1),
{
    let step = run.cursors[n].index as int;
    match run.cursors[n].phase {
        Phase::Exchanging { command, attempt, state } => {
            if let EventView::Received(frame) = run.events[n] {
                assert(run.got(step, frame, n));
                if state is AwaitingAck {
                    assert(run.acknowledged(job, step, command.opcode(), n));
                    assert(run.accepted(job, step, command, n));
                } else {
                    assert(run.responded(job, step, command, n));
                }
            }
        },
        Phase::Writing { block, round, progress } => {
            if let EventView::Received(frame) = run.events[n] {
                assert(run.got(step, frame, n));
                assert(run.acknowledged(job, step, WRITE_MEMORY, n));
            }
        },
        _ => {
            lemma_accomplished_stays(job, run, step, n);
        },
    }
}

/// One more event keeps a session sound.
proof fn lemma_sound_step(job: Job, run: Run, n: int)
    requires
        run.is_of(job),
        job.is_valid(),
        0 <= n < run.events.len(),
        run.is_sound(job, n),
    ensures
        run.is_sound(job, n + 1),
        run.cursors[n].index <= run.cursors[n + 1].index,
{
    let before = run.cursors[n];
    let after = run.cursors[n + 1];
    let index = before.index as int;
    assert((after, run.actions[n]) == job.advance(before, run.events[n]));
    job.law_cursor_stays_valid(before, run.events[n]);
    assert forall|step: int| 0 <= step < index implies #[trigger] run.accomplished(
        job,
        step,
        n + 1,
    ) by {
        lemma_accomplished_stays(job, run, step, n);
    }
    match before.phase {
        Phase::Finished { result } => {
            if result is Ok {
                lemma_accomplished_stays(job, run, index, n);
            }
        },
        Phase::Ready => {
            job.lemma_enter_fits(job.plan[index]);
            if job.enter(job.plan[index]) is Go {
                lemma_entering(job, run, n);
            }
        },
        phase => {
            let turn = job.react(phase, run.events[n]);
            job.lemma_react_fits(job.plan[index], phase, run.events[n]);
            match turn {
                TurnView::Go { .. } => {
                    if phase is Exchanging {
                        lemma_exchange_goes(job, run, n);
                    } else {
                        lemma_write_goes(job, run, n);
                    }
                },
                TurnView::Fail(_) => {},
                TurnView::Done { info } => {
                    lemma_done(job, run, n);
                    if index + 1 < job.plan.len() {
                        let known = if info is Some {
                            info
                        } else {
                            before.info
                        };
                        let next = job.enter(job.plan[index + 1]);
                        job.lemma_enter_fits(job.plan[index + 1]);
                        assert((after, run.actions[n]) == job.settle(index + 1, known, next));
                        if next is Go {
                            lemma_entering(job, run, n);
                        }
                    }
                },
            }
        },
    }
}

/// The steps of a session are carried out in the order of its plan: before the next one starts,
/// all that a step is about has happened on the bus. A session that succeeds has carried out all
/// of them.
pub proof fn law_steps_are_accomplished_in_order(job: Job, run: Run, n: int)
    requires
        job.is_valid(),
        run.is_of(job),
        0 <= n <= run.events.len(),
    ensures
        forall|step: int|
            0 <= step < run.cursors[n].index ==> #[trigger] run.accomplished(job, step, n),
        (n > 0 && run.actions[n - 1] matches ActionView::Finish(Ok(_))) ==> forall|step: int|
            0 <= step < job.plan.len() ==> #[trigger] run.accomplished(job, step, n),
        run.is_sound(job, n),
    decreases n,
{
    if n > 0 {
        law_steps_are_accomplished_in_order(job, run, n - 1);
        lemma_sound_step(job, run, n - 1);
        lemma_finish(job, run, n - 1);
    }
}

/// The action that ends a session goes with the cursor of a finished one.
pub proof fn lemma_finish(job: Job, run: Run, n: int)
    requires
        run.is_of(job),
        job.is_valid(),
        0 <= n < run.events.len(),
        job.cursor_fits(run.cursors[n]),
    ensures
        run.actions[n] matches ActionView::Finish(result) ==> run.cursors[n + 1].phase
            == (Phase::Finished { result }),
        run.cursors[n + 1].phase matches Phase::Finished { result } ==> run.actions[n]
            == ActionView::Finish(result),
{
    assert((run.cursors[n + 1], run.actions[n]) == job.advance(run.cursors[n], run.events[n]));
    if !(run.cursors[n].phase is Finished) {
        job.lemma_advance(run.cursors[n], run.events[n]);
        job.lemma_enter_fits(job.plan[run.cursors[n].index as int]);
        if !(run.cursors[n].phase is Ready) {
            job.lemma_react_fits(
                job.plan[run.cursors[n].index as int],
                run.cursors[n].phase,
                run.events[n],
            );
        }
    }
}

/// Whether a step sends a frame: its boot request, its command, its write command or one of its
/// write-data frames.
pub open spec fn is_frame_of(job: Job, step: Step, frame: FrameView) -> bool {
    match step {
        Step::RequestBootloader => job.route.boot_request == Ok::<_, NumberError>(frame.id)
            && job.route.boot_payload == Ok::<_, PayloadError>(frame.data),
        Step::Exchange(command) => job.route.request == Ok::<_, NumberError>(frame.id)
            && command.spec_request(job.image.len() as int, job.crc) == Ok::<_, ImageTooLong>(
            frame.data,
        ),
        Step::Write(block) => {
            ||| job.route.request == Ok::<_, NumberError>(frame.id) && frame.data == write_request(
                block,
            )
            ||| job.route.write_data == Ok::<_, NumberError>(frame.id) && exists|packet: int|
                0 <= packet < packet_count(block.length as int) && frame.data
                    == #[trigger] packet_frame(job.image, block, packet)
        },
        _ => false,
    }
}

proof fn lemma_turn_sends(job: Job, step: Step, turn: TurnView, frame: FrameView)
    requires
        turn matches TurnView::Go { action, .. } && action == ActionView::Send(frame),
        turn == job.enter(step) || exists|phase: Phase, event: EventView|
            job.phase_fits(step, phase) && turn == #[trigger] job.react(phase, event),
        step matches Step::Write(block) ==> job.has_block(block),
    ensures
        is_frame_of(job, step, frame),
{
    if turn != job.enter(step) {
        let (phase, event) = choose|phase: Phase, event: EventView|
            job.phase_fits(step, phase) && turn == #[trigger] job.react(phase, event);
        if let Phase::Writing { block, progress, .. } = phase {
            if let TurnView::Go { phase: next, .. } = turn {
                if let WriteState::SendingPacket { packet, .. } = next->progress {
                    assert(frame.data == packet_frame(job.image, block, packet as int));
                    assert(0 <= packet < packet_count(block.length as int));
                }
            }
        }
    }
}

/// What is sent belongs to the step that the session is at.
pub proof fn law_frames_belong_to_the_current_step(job: Job, cursor: Cursor, event: EventView)
    requires
        job.is_valid(),
        job.cursor_fits(cursor),
    ensures
        ({
            let (next, action) = job.advance(cursor, event);
            action matches ActionView::Send(frame) ==> is_frame_of(
                job,
                job.plan[next.index as int],
                frame,
            )
        }),
{
    let index = cursor.index as int;
    let (next, action) = job.advance(cursor, event);
    if let ActionView::Send(frame) = action {
        job.lemma_advance(cursor, event);
        let turn = job.turn(cursor, event);
        if turn is Done {
            lemma_turn_sends(
                job,
                job.plan[index + 1],
                job.enter(job.plan[index + 1]),
                frame,
            );
        } else {
            lemma_turn_sends(job, job.plan[index], turn, frame);
        }
    }
}

} // verus!
