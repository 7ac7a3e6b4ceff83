use ajax::can::CanFrame;
use ajax::crc::crc32_stm32;
use ajax::flash::job::{Action, Cause, Event, FlashError};
use ajax::flash::plan::{Block, Command, Stage, Step};
use ajax::flash::session::Session;
use ajax::flash::{change_listed_baud_rate, BaudError, FirmwareFlashManager};
use ajax::protocol::UnsupportedBaudRate;
use ajax::text::NumberError;
use ajax::types::{BootInfo, ConfigFile, EcuDefinition, Firmware, PayloadError};

const REQUEST: u32 = 0x7E0;
const RESPONSE: u32 = 0x7E8;
const WRITE_DATA: u32 = 0x7E1;
const BOOT: u32 = 0x100;

fn ecu() -> EcuDefinition {
    EcuDefinition {
        name: "BMS".to_string(),
        label: "Battery".to_string(),
        request_id: "0x7E0".to_string(),
        response_id: "0x7E8".to_string(),
        write_data_id: "0x7E1".to_string(),
        application_boot_request_id: "0x100".to_string(),
        application_boot_request_data: "DE AD".to_string(),
    }
}

fn manager() -> FirmwareFlashManager {
    FirmwareFlashManager::new(ecu())
}

fn firmware(length: usize) -> Firmware {
    let data: Vec<u8> = (0..length).map(|index| (index * 13 + index / 256) as u8).collect();
    Firmware { crc32: crc32_stm32(&data), data, address: 0x0800_8000, format: "BIN" }
}

fn answer(data: &[u8]) -> Event {
    Event::Received(CanFrame { id: RESPONSE, data: data.to_vec() })
}

fn sent(action: &Action) -> (u32, Vec<u8>) {
    match action {
        Action::Send(frame) => (frame.id, frame.data.clone()),
        other => panic!("no frame is sent: {other:?}"),
    }
}

fn error(action: &Action) -> FlashError {
    match action {
        Action::Finish(Err(error)) => *error,
        other => panic!("the session has not failed: {other:?}"),
    }
}

/// Goes through an attempt at a command up to the wait for its acknowledgement.
fn request(session: &mut Session, event: Event, data: &[u8], time: u64) {
    let action = session.advance(event);
    assert!(matches!(action, Action::Clear), "{action:?}");
    assert_eq!(sent(&session.advance(Event::Completed)), (REQUEST, data.to_vec()));
    let action = session.advance(Event::Completed);
    assert!(matches!(action, Action::Wait(limit) if limit == time), "{action:?}");
}

/// A bootloader that writes down what it is sent, and answers.
struct Bootloader {
    frames: Vec<(u32, Vec<u8>)>,
    stages: Vec<Stage>,
    sleeps: Vec<u64>,
    answers: Vec<Vec<u8>>,
    image: Vec<u8>,
    block: usize,
    crc: u32,
    swapped: bool,
    /// Packets that are left to be rejected.
    rejections: usize,
    /// Frames that are left to be ignored.
    losses: usize,
}

impl Bootloader {
    fn new(crc: u32) -> Bootloader {
        Bootloader {
            frames: vec![],
            stages: vec![],
            sleeps: vec![],
            answers: vec![],
            image: vec![],
            block: 0,
            crc,
            swapped: false,
            rejections: 0,
            losses: 0,
        }
    }

    fn take(&mut self, frame: CanFrame) {
        self.frames.push((frame.id, frame.data.clone()));
        if frame.id == WRITE_DATA {
            if self.losses > 0 {
                self.losses -= 1;
                return;
            }
            if self.rejections > 0 {
                self.rejections -= 1;
                self.answers.push(vec![0xA5, 0xA5]);
                return;
            }
            let payload = &frame.data[1..];
            self.image.extend_from_slice(payload);
            self.block -= payload.len();
            self.answers.push(vec![0x5A, 0xA5, frame.data[0]]);
            if self.block == 0 {
                self.answers.push(vec![0x5A, 0xA5]);
            }
        } else if frame.id == REQUEST {
            let command = frame.data[0];
            self.answers.push(vec![0x5A, command]);
            match command {
                0xA2 => self.answers.push(vec![0xA2, 0x21, 1, 0]),
                0xA5 => {
                    self.block = frame.data[5] as usize * 256 + frame.data[6] as usize;
                    let address = u32::from_be_bytes([
                        frame.data[1],
                        frame.data[2],
                        frame.data[3],
                        frame.data[4],
                    ]);
                    self.image.truncate((address - 0x0810_8000) as usize);
                    assert_eq!(address as usize, 0x0810_8000 + self.image.len());
                }
                0xA8 => {
                    let mut response = vec![0xA8];
                    response.extend_from_slice(&self.crc.to_be_bytes());
                    self.answers.push(response);
                }
                0xA7 => self.swapped = true,
                _ => {}
            }
        }
    }

    /// Holds a session to its end.
    fn hold(&mut self, session: &mut Session) -> Result<Option<BootInfo>, FlashError> {
        let mut event = Event::Begin;
        loop {
            event = match session.advance(event) {
                Action::Report(stage) => {
                    self.stages.push(stage);
                    Event::Completed
                }
                Action::Clear => {
                    self.answers.clear();
                    Event::Completed
                }
                Action::Send(frame) => {
                    self.take(frame);
                    Event::Completed
                }
                Action::Sleep(time) => {
                    self.sleeps.push(time);
                    Event::Completed
                }
                Action::Wait(_) | Action::KeepWaiting => {
                    if self.answers.is_empty() {
                        Event::Expired
                    } else {
                        let data = self.answers.remove(0);
                        answer(&data)
                    }
                }
                Action::Finish(result) => return result,
            };
        }
    }
}

#[test]
fn a_ping_is_acknowledged() {
    let mut session = manager().ping();
    request(&mut session, Event::Begin, &[0xA1], 5_000);
    let action = session.advance(answer(&[0x5A, 0xA1]));
    assert!(matches!(action, Action::Finish(Ok(None))), "{action:?}");
}

#[test]
fn frames_that_say_nothing_are_waited_over() {
    let mut session = manager().ping();
    request(&mut session, Event::Begin, &[0xA1], 5_000);
    for data in [vec![0x5A, 0xA2], vec![0x5A], vec![], vec![0x5A, 0xA1, 0], vec![0, 0xA1]] {
        let action = session.advance(answer(&data));
        assert!(matches!(action, Action::KeepWaiting), "{action:?}");
    }
    let other = CanFrame { id: RESPONSE + 1, data: vec![0x5A, 0xA1] };
    let action = session.advance(Event::Received(other));
    assert!(matches!(action, Action::KeepWaiting), "{action:?}");
    let action = session.advance(answer(&[0x5A, 0xA1]));
    assert!(matches!(action, Action::Finish(Ok(None))), "{action:?}");
}

#[test]
fn a_ping_is_tried_three_times() {
    let mut session = manager().ping();
    request(&mut session, Event::Begin, &[0xA1], 5_000);
    let action = session.advance(Event::Expired);
    assert!(matches!(action, Action::Sleep(100)), "{action:?}");
    request(&mut session, Event::Completed, &[0xA1], 5_000);
    let action = session.advance(answer(&[0xA5, 0xA1]));
    assert!(matches!(action, Action::Sleep(100)), "{action:?}");
    request(&mut session, Event::Completed, &[0xA1], 5_000);
    let action = session.advance(Event::Expired);
    assert_eq!(
        error(&action),
        FlashError {
            step: Step::Exchange(Command::Ping),
            cause: Cause::AckTimeout { command: 0xA1 },
        }
    );
}

#[test]
fn the_last_attempt_decides_the_error() {
    let mut session = manager().ping();
    for _ in 0..2 {
        assert!(matches!(session.advance(Event::Completed), Action::Clear));
        assert!(matches!(session.advance(Event::Failed), Action::Sleep(100)));
    }
    request(&mut session, Event::Completed, &[0xA1], 5_000);
    let action = session.advance(answer(&[0xA5, 0xA1]));
    assert_eq!(error(&action).cause, Cause::Rejected { command: 0xA1 });
}

#[test]
fn a_finished_session_stays_finished() {
    let mut session = manager().start_application();
    request(&mut session, Event::Begin, &[0xA4, 0x08, 0x00, 0x80, 0x00], 5_000);
    let action = session.advance(answer(&[0xA5, 0xA4]));
    let expected = FlashError {
        step: Step::Exchange(Command::StartApplication),
        cause: Cause::Rejected { command: 0xA4 },
    };
    assert_eq!(error(&action), expected);
    assert_eq!(error(&session.advance(answer(&[0x5A, 0xA4]))), expected);
    assert_eq!(error(&session.advance(Event::Begin)), expected);
}

#[test]
fn the_version_is_what_the_bootloader_reports() {
    let mut session = manager().get_version();
    request(&mut session, Event::Begin, &[0xA2], 5_000);
    let action = session.advance(answer(&[0x5A, 0xA2]));
    assert!(matches!(action, Action::Wait(5_000)), "{action:?}");
    let action = session.advance(answer(&[0xA2, 0x21, 1]));
    assert!(matches!(action, Action::KeepWaiting), "{action:?}");
    match session.advance(answer(&[0xA2, 0x21, 1, 0])) {
        Action::Finish(Ok(Some(info))) => {
            assert_eq!(info, BootInfo { version: 0x21, bank_swap_enabled: true });
            assert_eq!((info.major(), info.minor()), (2, 1));
        }
        other => panic!("{other:?}"),
    }
}

#[test]
fn a_missing_response_is_asked_for_again() {
    let mut session = manager().get_version();
    let mut event = Event::Begin;
    for _ in 0..2 {
        request(&mut session, event, &[0xA2], 5_000);
        assert!(matches!(session.advance(answer(&[0x5A, 0xA2])), Action::Wait(5_000)));
        assert!(matches!(session.advance(Event::Expired), Action::Sleep(100)));
        event = Event::Completed;
    }
    request(&mut session, event, &[0xA2], 5_000);
    assert!(matches!(session.advance(answer(&[0x5A, 0xA2])), Action::Wait(5_000)));
    let action = session.advance(Event::Expired);
    assert_eq!(error(&action).cause, Cause::ResponseTimeout { command: 0xA2 });
}

#[test]
fn the_bootloader_is_requested_and_then_pinged() {
    let mut session = manager().request_bootloader();
    assert_eq!(sent(&session.advance(Event::Begin)), (BOOT, vec![0xDE, 0xAD]));
    let action = session.advance(Event::Completed);
    assert!(matches!(action, Action::Sleep(750)), "{action:?}");
    request(&mut session, Event::Completed, &[0xA1], 5_000);
    let action = session.advance(answer(&[0x5A, 0xA1]));
    assert!(matches!(action, Action::Finish(Ok(None))), "{action:?}");
}

#[test]
fn a_boot_request_that_cannot_be_sent_is_not_tried_again() {
    let mut session = manager().request_bootloader();
    session.advance(Event::Begin);
    assert_eq!(
        error(&session.advance(Event::Failed)),
        FlashError { step: Step::RequestBootloader, cause: Cause::Action }
    );
}

#[test]
fn a_boot_request_needs_its_identifier_and_its_payload() {
    let mut definition = ecu();
    definition.application_boot_request_id = "x".to_string();
    definition.application_boot_request_data = "".to_string();
    let mut session = FirmwareFlashManager::new(definition).request_bootloader();
    assert_eq!(
        error(&session.advance(Event::Begin)).cause,
        Cause::BootRequestId(NumberError::InvalidDigit)
    );

    let mut definition = ecu();
    definition.application_boot_request_data = "".to_string();
    let mut session = FirmwareFlashManager::new(definition).request_bootloader();
    assert_eq!(
        error(&session.advance(Event::Begin)).cause,
        Cause::BootPayload(PayloadError::Length)
    );
}

#[test]
fn a_bit_rate_is_sent_as_its_code() {
    let mut session = manager().change_baud_rate(500_000).unwrap();
    request(&mut session, Event::Begin, &[0xAA, 2], 5_000);
    let action = session.advance(Event::Expired);
    assert_eq!(error(&action).cause, Cause::AckTimeout { command: 0xAA });
    assert_eq!(
        manager().change_baud_rate(1).unwrap_err(),
        UnsupportedBaudRate { bit_rate: 1 }
    );
}

#[test]
fn an_unreadable_request_identifier_fails_every_attempt() {
    let mut definition = ecu();
    definition.request_id = "".to_string();
    let mut session = FirmwareFlashManager::new(definition).ping();
    let mut event = Event::Begin;
    for _ in 0..2 {
        assert!(matches!(session.advance(event), Action::Clear));
        assert!(matches!(session.advance(Event::Completed), Action::Sleep(100)));
        event = Event::Completed;
    }
    assert!(matches!(session.advance(event), Action::Clear));
    assert_eq!(
        error(&session.advance(Event::Completed)).cause,
        Cause::RequestId(NumberError::Empty)
    );
}

#[test]
fn an_unreadable_response_identifier_is_noticed_behind_the_request() {
    let mut definition = ecu();
    definition.response_id = "0xZ".to_string();
    let mut session = FirmwareFlashManager::new(definition).start_application();
    assert!(matches!(session.advance(Event::Begin), Action::Clear));
    sent(&session.advance(Event::Completed));
    assert_eq!(
        error(&session.advance(Event::Completed)).cause,
        Cause::ResponseId(NumberError::InvalidDigit)
    );
}

#[test]
fn an_update_writes_the_image_and_swaps_the_banks() {
    let image = firmware(700);
    let mut bootloader = Bootloader::new(image.crc32);
    let result = bootloader.hold(&mut manager().flash(&image, false));
    assert_eq!(result, Ok(Some(BootInfo { version: 0x21, bank_swap_enabled: true })));
    assert_eq!(bootloader.image, image.data);
    assert!(bootloader.swapped);
    assert_eq!(bootloader.sleeps, vec![750]);
    assert_eq!(
        bootloader.stages,
        vec![
            Stage::EnteringBootloader,
            Stage::DetectingBootloader,
            Stage::StartingUpdate,
            Stage::ErasingInactiveBank,
            Stage::Programming { completed: 256, total: 700 },
            Stage::Programming { completed: 512, total: 700 },
            Stage::Programming { completed: 700, total: 700 },
            Stage::VerifyingCrc,
            Stage::SwappingBanks,
            Stage::Complete,
        ]
    );
    assert_eq!(bootloader.frames[0], (BOOT, vec![0xDE, 0xAD]));
    assert_eq!(bootloader.frames[1], (REQUEST, vec![0xA1]));
    assert_eq!(bootloader.frames[2], (REQUEST, vec![0xA2]));
    let crc = image.crc32.to_be_bytes();
    assert_eq!(
        bootloader.frames[3],
        (REQUEST, vec![0xA9, 0, 0x02, 0xBC, crc[0], crc[1], crc[2], crc[3]])
    );
    assert_eq!(bootloader.frames[4], (REQUEST, vec![0xA6, 4, 124]));
    assert_eq!(bootloader.frames[5], (REQUEST, vec![0xA5, 0x08, 0x10, 0x80, 0x00, 1, 0]));
    assert_eq!(
        bootloader.frames[6],
        (WRITE_DATA, vec![0, 0, 13, 26, 39, 52, 65, 78])
    );
    assert_eq!(bootloader.frames.last(), Some(&(REQUEST, vec![0xA7])));
    for (_, data) in &bootloader.frames {
        assert!(!data.is_empty() && data.len() <= 8);
    }
}

#[test]
fn an_update_can_start_in_the_bootloader() {
    let image = firmware(8);
    let mut bootloader = Bootloader::new(image.crc32);
    assert!(bootloader.hold(&mut manager().flash(&image, true)).is_ok());
    assert_eq!(bootloader.frames[0], (REQUEST, vec![0xA2]));
    assert_eq!(bootloader.stages[0], Stage::DetectingBootloader);
    assert_eq!(bootloader.image, image.data);
}

#[test]
fn banks_are_not_swapped_where_the_crc_differs() {
    let image = firmware(300);
    let mut bootloader = Bootloader::new(image.crc32 ^ 1);
    let failure = bootloader.hold(&mut manager().flash(&image, true)).unwrap_err();
    assert_eq!(
        failure,
        FlashError {
            step: Step::Exchange(Command::ComputeCrc),
            cause: Cause::CrcMismatch { returned: image.crc32 ^ 1, expected: image.crc32 },
        }
    );
    assert!(!bootloader.swapped);
    assert_eq!(bootloader.frames.last(), Some(&(REQUEST, vec![0xA8])));
}

#[test]
fn a_rejected_block_is_written_again() {
    let image = firmware(300);
    let mut bootloader = Bootloader::new(image.crc32);
    bootloader.rejections = 2;
    assert!(bootloader.hold(&mut manager().flash(&image, true)).is_ok());
    assert_eq!(bootloader.image, image.data);
    assert_eq!(bootloader.sleeps, vec![100, 100]);
}

#[test]
fn a_block_is_given_up_at_its_third_rejection() {
    let image = firmware(300);
    let mut bootloader = Bootloader::new(image.crc32);
    bootloader.rejections = 3;
    let failure = bootloader.hold(&mut manager().flash(&image, true)).unwrap_err();
    assert_eq!(failure.cause, Cause::BlockRejected);
    assert_eq!(failure.step, Step::Write(Block { offset: 0, length: 256 }));
    assert_eq!(bootloader.sleeps, vec![100, 100]);
    assert!(!bootloader.swapped);
}

#[test]
fn a_lost_packet_is_sent_again() {
    let image = firmware(300);
    let mut bootloader = Bootloader::new(image.crc32);
    bootloader.losses = 3;
    assert!(bootloader.hold(&mut manager().flash(&image, true)).is_ok());
    assert_eq!(bootloader.image, image.data);
    assert_eq!(bootloader.sleeps, vec![100, 100, 100]);
}

#[test]
fn a_packet_is_given_up_at_its_fourth_loss() {
    let image = firmware(300);
    let mut bootloader = Bootloader::new(image.crc32);
    bootloader.losses = 4;
    let failure = bootloader.hold(&mut manager().flash(&image, true)).unwrap_err();
    assert_eq!(failure.cause, Cause::PacketTimeout { sequence: 0 });
    assert_eq!(bootloader.sleeps, vec![100, 100, 100]);
}

/// Brings an update to the wait for the answer to its first write command.
fn at_first_write(session: &mut Session) {
    let mut event = Event::Begin;
    loop {
        event = match session.advance(event) {
            Action::Send(frame) => {
                if frame.data[0] == 0xA5 {
                    break;
                }
                Event::Completed
            }
            Action::Wait(5_000) => answer(&[0x5A, 0xA2]),
            Action::Wait(_) => answer(&[0x5A, 0xA6]),
            Action::KeepWaiting => answer(&[0x5A, 0xA9]),
            Action::Finish(result) => panic!("{result:?}"),
            _ => Event::Completed,
        };
        if let Event::Received(frame) = &event {
            if frame.data == [0x5A, 0xA2] {
                let action = session.advance(event);
                event = match action {
                    Action::Wait(_) => answer(&[0xA2, 0x10, 0, 0]),
                    Action::KeepWaiting => answer(&[0x5A, 0xA9]),
                    other => panic!("{other:?}"),
                };
            }
        }
    }
    let action = session.advance(Event::Completed);
    assert!(matches!(action, Action::Wait(5_000)), "{action:?}");
}

#[test]
fn an_unanswered_write_command_is_sent_four_times() {
    let image = firmware(10);
    let mut session = manager().flash(&image, true);
    at_first_write(&mut session);
    for _ in 0..3 {
        assert!(matches!(session.advance(Event::Expired), Action::Sleep(100)));
        assert_eq!(
            sent(&session.advance(Event::Completed)),
            (REQUEST, vec![0xA5, 0x08, 0x10, 0x80, 0x00, 0, 10])
        );
        assert!(matches!(session.advance(Event::Completed), Action::Wait(5_000)));
    }
    assert_eq!(error(&session.advance(Event::Expired)).cause, Cause::WriteRequestTimeout);
}

#[test]
fn a_rejected_write_command_starts_the_block_again() {
    let image = firmware(10);
    let mut session = manager().flash(&image, true);
    at_first_write(&mut session);
    assert!(matches!(session.advance(answer(&[0xA5, 0xA5])), Action::Sleep(100)));
    assert!(matches!(session.advance(Event::Completed), Action::Clear));
    assert_eq!(sent(&session.advance(Event::Completed)).0, REQUEST);
}

#[test]
fn packets_are_sent_one_by_one_and_the_whole_is_acknowledged() {
    let image = firmware(10);
    let mut session = manager().flash(&image, true);
    at_first_write(&mut session);
    assert_eq!(
        sent(&session.advance(answer(&[0x5A, 0xA5]))),
        (WRITE_DATA, vec![0, 0, 13, 26, 39, 52, 65, 78])
    );
    assert!(matches!(session.advance(Event::Completed), Action::Wait(500)));
    assert!(matches!(session.advance(answer(&[0x5A, 0xA5, 1])), Action::KeepWaiting));
    assert!(matches!(session.advance(answer(&[0x5A, 0xA5])), Action::KeepWaiting));
    assert_eq!(
        sent(&session.advance(answer(&[0x5A, 0xA5, 0]))),
        (WRITE_DATA, vec![1, 91, 104, 117])
    );
    assert!(matches!(session.advance(Event::Completed), Action::Wait(500)));
    assert!(matches!(session.advance(answer(&[0x5A, 0xA5, 1])), Action::Wait(5_000)));
    assert!(matches!(session.advance(answer(&[0x5A, 0xA5, 1])), Action::KeepWaiting));
    let action = session.advance(answer(&[0x5A, 0xA5]));
    assert!(
        matches!(action, Action::Report(Stage::Programming { completed: 10, total: 10 })),
        "{action:?}"
    );
}

#[test]
fn a_missing_last_acknowledgement_ends_the_update() {
    let image = firmware(3);
    let mut session = manager().flash(&image, true);
    at_first_write(&mut session);
    sent(&session.advance(answer(&[0x5A, 0xA5])));
    session.advance(Event::Completed);
    assert!(matches!(session.advance(answer(&[0x5A, 0xA5, 0])), Action::Wait(5_000)));
    assert_eq!(
        error(&session.advance(Event::Expired)),
        FlashError {
            step: Step::Write(Block { offset: 0, length: 3 }),
            cause: Cause::WriteTimeout,
        }
    );
}

#[test]
fn an_unreadable_write_data_identifier_ends_the_update() {
    let mut definition = ecu();
    definition.write_data_id = "?".to_string();
    let image = firmware(3);
    let manager = FirmwareFlashManager::new(definition);
    let mut session = manager.flash(&image, true);
    at_first_write(&mut session);
    assert_eq!(
        error(&session.advance(answer(&[0x5A, 0xA5]))).cause,
        Cause::WriteDataId(NumberError::InvalidDigit)
    );
}

#[test]
fn a_failed_report_ends_the_update() {
    let image = firmware(3);
    let mut session = manager().flash(&image, true);
    let action = session.advance(Event::Begin);
    assert!(matches!(action, Action::Report(Stage::DetectingBootloader)), "{action:?}");
    assert_eq!(
        error(&session.advance(Event::Failed)),
        FlashError { step: Step::Report(Stage::DetectingBootloader), cause: Cause::Action }
    );
}

#[test]
fn an_image_that_cannot_be_announced_is_not_sent() {
    let image = Firmware { data: vec![0; 0x100_0000], address: 0, crc32: 0, format: "BIN" };
    let mut bootloader = Bootloader::new(0);
    let failure = bootloader.hold(&mut manager().flash(&image, true)).unwrap_err();
    assert_eq!(
        failure,
        FlashError { step: Step::Exchange(Command::StartUpdate), cause: Cause::ImageTooLong }
    );
    assert_eq!(bootloader.sleeps, vec![100, 100]);
    assert_eq!(bootloader.frames, vec![(REQUEST, vec![0xA2])]);
}

#[test]
fn a_silent_bus_ends_every_session() {
    let image = firmware(300);
    let mut sessions: Vec<Session> = vec![
        manager().ping(),
        manager().get_version(),
        manager().request_bootloader(),
        manager().start_application(),
        manager().flash(&image, true),
    ];
    for session in sessions.iter_mut() {
        let mut event = Event::Begin;
        let mut turns: usize = 0;
        loop {
            event = match session.advance(event) {
                Action::Wait(_) | Action::KeepWaiting => Event::Expired,
                Action::Finish(result) => {
                    assert!(result.is_err());
                    break;
                }
                _ => Event::Completed,
            };
            turns += 1;
            assert!(turns < 100);
        }
    }
}

#[test]
fn only_listed_bit_rates_with_a_code_are_changed_to() {
    let config = ConfigFile { supported_bit_rates: vec![250_000, 800_000], ecus: vec![] };
    let mut session = change_listed_baud_rate(&manager(), &config, 250_000).unwrap();
    request(&mut session, Event::Begin, &[0xAA, 1], 5_000);
    assert_eq!(
        change_listed_baud_rate(&manager(), &config, 500_000).unwrap_err(),
        BaudError::NotListed { bit_rate: 500_000 }
    );
    assert_eq!(
        change_listed_baud_rate(&manager(), &config, 1).unwrap_err(),
        BaudError::NotListed { bit_rate: 1 }
    );
    assert_eq!(
        change_listed_baud_rate(&manager(), &config, 800_000).unwrap_err(),
        BaudError::Unsupported(UnsupportedBaudRate { bit_rate: 800_000 })
    );
}

#[test]
fn the_swap_command_is_sent_once_and_last() {
    let image = firmware(700);
    let mut bootloader = Bootloader::new(image.crc32);
    bootloader.rejections = 1;
    bootloader.losses = 2;
    assert!(bootloader.hold(&mut manager().flash(&image, false)).is_ok());
    let swap = (REQUEST, vec![0xA7]);
    assert_eq!(bootloader.frames.iter().filter(|frame| **frame == swap).count(), 1);
    assert_eq!(bootloader.frames.last(), Some(&swap));
}

#[test]
fn a_rejected_block_starts_again_with_its_first_packet() {
    let image = firmware(20);
    let mut session = manager().flash(&image, true);
    at_first_write(&mut session);
    assert_eq!(sent(&session.advance(answer(&[0x5A, 0xA5]))).1[0], 0);
    session.advance(Event::Completed);
    assert_eq!(sent(&session.advance(answer(&[0x5A, 0xA5, 0]))).1[0], 1);
    session.advance(Event::Completed);
    assert!(matches!(session.advance(answer(&[0xA5, 0xA5, 1])), Action::Sleep(100)));
    assert!(matches!(session.advance(Event::Completed), Action::Clear));
    assert_eq!(sent(&session.advance(Event::Completed)).0, REQUEST);
    assert!(matches!(session.advance(Event::Completed), Action::Wait(5_000)));
    assert_eq!(
        sent(&session.advance(answer(&[0x5A, 0xA5]))),
        (WRITE_DATA, vec![0, 0, 13, 26, 39, 52, 65, 78])
    );
}

#[test]
fn frames_are_sent_no_more_often_than_tried() {
    // A bootloader that answers the fourth time only, and rejects what it answers.
    let image = firmware(3);
    let mut session = manager().flash(&image, true);
    at_first_write(&mut session);
    let mut commands: usize = 1;
    let mut unanswered: usize = 0;
    let mut event = Event::Expired;
    loop {
        event = match session.advance(event) {
            Action::Send(frame) => {
                assert_eq!(frame.data[0], 0xA5);
                commands += 1;
                Event::Completed
            }
            Action::Wait(_) => {
                unanswered = (unanswered + 1) % 4;
                if unanswered == 3 {
                    answer(&[0xA5, 0xA5])
                } else {
                    Event::Expired
                }
            }
            Action::Finish(result) => {
                assert_eq!(result.unwrap_err().cause, Cause::BlockRejected);
                break;
            }
            _ => Event::Completed,
        };
    }
    assert_eq!(commands, 12);
}
