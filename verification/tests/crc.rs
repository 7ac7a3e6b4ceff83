use ajax::crc::crc32_stm32;

#[test]
fn crc_of_nothing_is_the_initial_value() {
    assert_eq!(crc32_stm32(&[]), 0xFFFF_FFFF);
}

#[test]
fn crc_of_the_check_digits() {
    assert_eq!(crc32_stm32(b"123456789"), 0x0376_E6E7);
}

#[test]
fn crc_of_one_zero_byte() {
    assert_eq!(crc32_stm32(&[0]), 0x4E08_BFB4);
}

#[test]
fn crc_changes_with_every_changed_byte() {
    let data: Vec<u8> = vec![0x10, 0x20, 0x30, 0x40, 0x50];
    let whole: u32 = crc32_stm32(&data);
    for position in 0..data.len() {
        for flip in 1..=255u8 {
            let mut changed: Vec<u8> = data.clone();
            changed[position] ^= flip;
            assert_ne!(crc32_stm32(&changed), whole);
        }
    }
}

#[test]
fn crc_is_sensitive_to_order() {
    assert_ne!(crc32_stm32(&[1, 2]), crc32_stm32(&[2, 1]));
}
