//! Talking to the bootloader of an ECU.

pub mod counts;
pub mod frame_laws;
pub mod job;
pub mod laws;
pub mod plan;
pub mod reply;
pub mod run;
pub mod session;
pub mod turn_laws;
pub mod update;

use crate::flash::job::{route_of, Job, Route};
use crate::flash::plan::{
    block_at, block_count, bootloader_steps, build_bootloader_steps, build_exchange,
    build_update_steps, completion_steps, entry_steps, preparation_steps, update_steps,
    write_steps, Command, Step,
};
use crate::flash::session::Session;
use crate::protocol::{baud_rate_code, is_baud_rate_code, UnsupportedBaudRate, MAXIMUM_WRITE_SIZE};
use crate::types::{ConfigFile, EcuDefinition, Firmware};
use vstd::prelude::*;

verus! {

/// Gives the sessions that can be held with the bootloader of an ECU.
#[derive(Debug)]
pub struct FirmwareFlashManager {
    pub ecu: EcuDefinition,
}

/// An operation on an ECU that needs no image.
pub open spec fn plain_job(ecu: EcuDefinition, plan: Seq<Step>) -> Job {
    Job { route: route_of(ecu), image: Seq::empty(), crc: 0, plan }
}

/// The update of an ECU with an image.
pub open spec fn update_job(
    ecu: EcuDefinition,
    image: Firmware,
    already_in_bootloader: bool,
) -> Job {
    Job {
        route: route_of(ecu),
        image: image.data@,
        crc: image.crc32,
        plan: update_steps(image.data@.len() as int, already_in_bootloader),
    }
}

/// The blocks of an update are parts of the image that a write command can carry.
pub proof fn lemma_update_job_is_valid(job: Job, already_in_bootloader: bool)
    requires
        job.image.len() <= usize::MAX,
        job.plan.len() <= usize::MAX,
        job.plan == update_steps(job.image.len() as int, already_in_bootloader),
    ensures
        job.is_valid(),
{
    let total = job.image.len() as int;
    let before = entry_steps(already_in_bootloader) + preparation_steps();
    let writes = write_steps(total);
    assert forall|i: int|
        #![trigger job.plan[i]]
        0 <= i < job.plan.len() implies (job.plan[i] matches Step::Write(block)
        ==> job.has_block(block)) by {
        if before.len() <= i < before.len() + writes.len() {
            let k = i - before.len();
            assert(job.plan[i] == writes[k]);
            let index = k / 2;
            assert(0 <= index < block_count(total));
            let block = block_at(total, index);
            assert(index * MAXIMUM_WRITE_SIZE < total);
        } else if i < before.len() {
            assert(job.plan[i] == before[i]);
        } else {
            assert(job.plan[i] == completion_steps()[i - before.len() - writes.len()]);
        }
    }
}

/// Why the bit rate of a bootloader is not changed.
#[derive(Debug, Clone, Copy, PartialEq, Eq, Structural)]
pub enum BaudError {
    /// The configuration does not list the bit rate.
    NotListed { bit_rate: u32 },
    /// The bootloader has no code for the bit rate.
    Unsupported(UnsupportedBaudRate),
}

/// Changes the bit rate that the bootloader uses, to one that the configuration lists.
pub fn change_listed_baud_rate(
    manager: &FirmwareFlashManager,
    config: &ConfigFile,
    bit_rate: u32,
) -> (result: Result<Session<'static>, BaudError>)
    ensures
        match result {
            Ok(session) => {
                &&& config.supported_bit_rates@.contains(bit_rate)
                &&& session.cursor() == Job::start()
                &&& exists|code: u8|
                    {
                        &&& #[trigger] is_baud_rate_code(bit_rate, code)
                        &&& session.job() == plain_job(
                            manager.ecu,
                            seq![Step::Exchange(Command::SetBaudRate { code })],
                        )
                    }
            },
            Err(BaudError::NotListed { bit_rate: refused }) => refused == bit_rate
                && !config.supported_bit_rates@.contains(bit_rate),
            Err(BaudError::Unsupported(error)) => error.bit_rate == bit_rate
                && config.supported_bit_rates@.contains(bit_rate) && forall|code: u8|
                !is_baud_rate_code(bit_rate, code),
        },
{
    if !config.supports_bit_rate(bit_rate) {
        return Err(BaudError::NotListed { bit_rate });
    }
    match manager.change_baud_rate(bit_rate) {
        Ok(session) => Ok(session),
        Err(error) => Err(BaudError::Unsupported(error)),
    }
}

impl FirmwareFlashManager {
    /// A manager for an ECU.
    pub fn new(ecu: EcuDefinition) -> (manager: FirmwareFlashManager)
        ensures
            manager.ecu == ecu,
    {
        FirmwareFlashManager { ecu }
    }

    fn plain_session(&self, plan: Vec<Step>) -> (session: Session<'static>)
        requires
            plan@.len() > 0,
            forall|i: int| 0 <= i < plan@.len() ==> !(#[trigger] plan@[i] is Write),
        ensures
            session.job() == plain_job(self.ecu, plan@),
            session.cursor() == Job::start(),
    {
        let image: &'static [u8] = &[];
        assert(image@ =~= Seq::<u8>::empty());
        assert(plan.len() <= usize::MAX);
        Session::new(Route::of(&self.ecu), image, 0, plan)
    }

    /// Finds out whether the bootloader answers.
    pub fn ping(&self) -> (session: Session<'static>)
        ensures
            session.job() == plain_job(self.ecu, seq![Step::Exchange(Command::Ping)]),
            session.cursor() == Job::start(),
    {
        self.plain_session(build_exchange(Command::Ping))
    }

    /// Asks the application to start the bootloader, and finds out whether it has started.
    pub fn request_bootloader(&self) -> (session: Session<'static>)
        ensures
            session.job() == plain_job(self.ecu, bootloader_steps()),
            session.cursor() == Job::start(),
    {
        self.plain_session(build_bootloader_steps())
    }

    /// Reads what the bootloader says about itself.
    pub fn get_version(&self) -> (session: Session<'static>)
        ensures
            session.job() == plain_job(self.ecu, seq![Step::Exchange(Command::GetVersion)]),
            session.cursor() == Job::start(),
    {
        self.plain_session(build_exchange(Command::GetVersion))
    }

    /// Starts the application.
    pub fn start_application(&self) -> (session: Session<'static>)
        ensures
            session.job() == plain_job(self.ecu, seq![Step::Exchange(Command::StartApplication)]),
            session.cursor() == Job::start(),
    {
        self.plain_session(build_exchange(Command::StartApplication))
    }

    /// Changes the bit rate that the bootloader uses.
    pub fn change_baud_rate(&self, bit_rate: u32) -> (result: Result<
        Session<'static>,
        UnsupportedBaudRate,
    >)
        ensures
            match result {
                Ok(session) => session.cursor() == Job::start() && exists|code: u8|
                    {
                        &&& #[trigger] is_baud_rate_code(bit_rate, code)
                        &&& session.job() == plain_job(
                            self.ecu,
                            seq![Step::Exchange(Command::SetBaudRate { code })],
                        )
                    },
                Err(error) => error.bit_rate == bit_rate && forall|code: u8|
                    !is_baud_rate_code(bit_rate, code),
            },
    {
        match baud_rate_code(bit_rate) {
            Ok(code) => Ok(self.plain_session(build_exchange(Command::SetBaudRate { code }))),
            Err(error) => Err(error),
        }
    }

    /// Writes an image to the inactive bank, verifies its CRC and swaps the banks.
    pub fn flash<'a>(&self, image: &'a Firmware, already_in_bootloader: bool) -> (session: Session<
        'a,
    >)
        ensures
            session.job() == update_job(self.ecu, *image, already_in_bootloader),
            session.cursor() == Job::start(),
    {
        let plan: Vec<Step> = build_update_steps(image.data.len(), already_in_bootloader);
        let data: &'a [u8] = image.data.as_slice();
        let route: Route = Route::of(&self.ecu);
        proof {
            let job = Job { route: route@, image: data@, crc: image.crc32, plan: plan@ };
            assert(plan.len() <= usize::MAX && image.data.len() <= usize::MAX);
            lemma_update_job_is_valid(job, already_in_bootloader);
        }
        Session::new(route, data, image.crc32, plan)
    }
}

} // verus!
