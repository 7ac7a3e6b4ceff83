use ajax::flash::plan::{
    build_bootloader_steps, build_exchange, build_packet, build_update_steps, build_write_request,
    to_big_endian, Block, Command, ImageTooLong, Stage, Step,
};

#[test]
fn every_command_has_its_bytes() {
    let request = |command: Command| command.request(0x01_0203, 0xAABB_CCDD).unwrap();
    assert_eq!(request(Command::Ping), vec![0xA1]);
    assert_eq!(request(Command::BootPing), vec![0xA1]);
    assert_eq!(request(Command::GetVersion), vec![0xA2]);
    assert_eq!(request(Command::StartApplication), vec![0xA4, 0x08, 0x00, 0x80, 0x00]);
    assert_eq!(request(Command::SetBaudRate { code: 3 }), vec![0xAA, 3]);
    assert_eq!(
        request(Command::StartUpdate),
        vec![0xA9, 0x01, 0x02, 0x03, 0xAA, 0xBB, 0xCC, 0xDD]
    );
    assert_eq!(request(Command::Erase), vec![0xA6, 4, 124]);
    assert_eq!(request(Command::ComputeCrc), vec![0xA8]);
    assert_eq!(request(Command::SwapBanks), vec![0xA7]);
}

#[test]
fn an_update_cannot_announce_more_than_three_bytes_of_length() {
    assert_eq!(
        Command::StartUpdate.request(0xFF_FFFF, 0),
        Ok(vec![0xA9, 0xFF, 0xFF, 0xFF, 0, 0, 0, 0])
    );
    assert_eq!(Command::StartUpdate.request(0x100_0000, 0), Err(ImageTooLong));
    assert_eq!(Command::Ping.request(0x100_0000, 0), Ok(vec![0xA1]));
}

#[test]
fn commands_have_their_attempts_times_and_responses() {
    assert_eq!(Command::Ping.attempts(), 3);
    assert_eq!(Command::StartApplication.attempts(), 1);
    assert_eq!(Command::SetBaudRate { code: 0 }.attempts(), 1);
    assert_eq!(Command::SwapBanks.attempts(), 1);
    assert_eq!(Command::Erase.attempts(), 3);
    assert_eq!(Command::Erase.timeout(), 30_000);
    assert_eq!(Command::ComputeCrc.timeout(), 5_000);
    assert_eq!(Command::GetVersion.response_length(), Some(4));
    assert_eq!(Command::ComputeCrc.response_length(), Some(5));
    assert_eq!(Command::Ping.response_length(), None);
}

#[test]
fn numbers_are_sent_highest_byte_first() {
    assert_eq!(to_big_endian(0x1234_5678), [0x12, 0x34, 0x56, 0x78]);
    assert_eq!(to_big_endian(u32::MAX), [0xFF; 4]);
}

#[test]
fn a_write_command_names_the_place_in_the_inactive_bank() {
    assert_eq!(
        build_write_request(Block { offset: 0, length: 256 }),
        vec![0xA5, 0x08, 0x10, 0x80, 0x00, 0x01, 0x00]
    );
    assert_eq!(
        build_write_request(Block { offset: 0x1_0200, length: 7 }),
        vec![0xA5, 0x08, 0x11, 0x82, 0x00, 0x00, 0x07]
    );
}

#[test]
fn a_packet_is_its_number_and_seven_bytes() {
    let image: Vec<u8> = (0..=255).collect();
    let block = Block { offset: 100, length: 17 };
    assert_eq!(build_packet(&image, block, 0), vec![0, 100, 101, 102, 103, 104, 105, 106]);
    assert_eq!(build_packet(&image, block, 1), vec![1, 107, 108, 109, 110, 111, 112, 113]);
    assert_eq!(build_packet(&image, block, 2), vec![2, 114, 115, 116]);
}

#[test]
fn packets_make_up_their_block_and_blocks_the_image() {
    for length in [1usize, 7, 8, 255, 256, 257, 512, 1000] {
        let image: Vec<u8> = (0..length).map(|index| (index * 7) as u8).collect();
        let mut joined: Vec<u8> = Vec::new();
        for step in build_update_steps(length, true) {
            if let Step::Write(block) = step {
                assert_eq!(block.offset, joined.len());
                let mut packet: usize = 0;
                while packet * 7 < block.length {
                    let frame = build_packet(&image, block, packet);
                    assert_eq!(frame[0] as usize, packet);
                    joined.extend_from_slice(&frame[1..]);
                    packet += 1;
                }
            }
        }
        assert_eq!(joined, image);
    }
}

#[test]
fn an_update_goes_through_its_steps() {
    let expected: Vec<Step> = vec![
        Step::Report(Stage::EnteringBootloader),
        Step::RequestBootloader,
        Step::BootDelay,
        Step::Exchange(Command::BootPing),
        Step::Report(Stage::DetectingBootloader),
        Step::Exchange(Command::GetVersion),
        Step::Report(Stage::StartingUpdate),
        Step::Exchange(Command::StartUpdate),
        Step::Report(Stage::ErasingInactiveBank),
        Step::Exchange(Command::Erase),
        Step::Write(Block { offset: 0, length: 256 }),
        Step::Report(Stage::Programming { completed: 256, total: 300 }),
        Step::Write(Block { offset: 256, length: 44 }),
        Step::Report(Stage::Programming { completed: 300, total: 300 }),
        Step::Report(Stage::VerifyingCrc),
        Step::Exchange(Command::ComputeCrc),
        Step::Report(Stage::SwappingBanks),
        Step::Exchange(Command::SwapBanks),
        Step::Report(Stage::Complete),
    ];
    assert_eq!(build_update_steps(300, false), expected);
    assert_eq!(build_update_steps(300, true), expected[4..].to_vec());
}

#[test]
fn other_operations_have_their_steps() {
    assert_eq!(
        build_bootloader_steps(),
        vec![Step::RequestBootloader, Step::BootDelay, Step::Exchange(Command::BootPing)]
    );
    assert_eq!(build_exchange(Command::Ping), vec![Step::Exchange(Command::Ping)]);
}
