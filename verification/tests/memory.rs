use ajax::memory::{insert_byte, insert_bytes, PlaceError};
use std::collections::BTreeMap;

#[test]
fn a_byte_goes_where_nothing_is() {
    let mut memory: BTreeMap<u32, u8> = BTreeMap::new();
    assert_eq!(insert_byte(&mut memory, 7, 1), Ok(()));
    assert_eq!(memory.get(&7), Some(&1));
}

#[test]
fn the_same_byte_may_come_twice() {
    let mut memory: BTreeMap<u32, u8> = BTreeMap::new();
    assert_eq!(insert_byte(&mut memory, 7, 1), Ok(()));
    assert_eq!(insert_byte(&mut memory, 7, 1), Ok(()));
    assert_eq!(memory.len(), 1);
}

#[test]
fn another_byte_is_a_conflict() {
    let mut memory: BTreeMap<u32, u8> = BTreeMap::new();
    assert_eq!(insert_byte(&mut memory, 7, 1), Ok(()));
    assert_eq!(insert_byte(&mut memory, 7, 2), Err(PlaceError::Conflict { address: 7 }));
}

#[test]
fn bytes_that_overlap_have_to_agree() {
    let mut memory: BTreeMap<u32, u8> = BTreeMap::new();
    assert_eq!(insert_bytes(&mut memory, 10, &[1, 2, 3]), Ok(()));
    assert_eq!(insert_bytes(&mut memory, 12, &[3, 4]), Ok(()));
    assert_eq!(memory.len(), 4);
    assert_eq!(
        insert_bytes(&mut memory, 11, &[2, 9, 4]),
        Err(PlaceError::Conflict { address: 12 })
    );
}

#[test]
fn bytes_find_their_place_in_either_order() {
    let mut forward: BTreeMap<u32, u8> = BTreeMap::new();
    let mut backward: BTreeMap<u32, u8> = BTreeMap::new();
    insert_bytes(&mut forward, 10, &[1, 2, 3]).unwrap();
    insert_bytes(&mut forward, 12, &[3, 4]).unwrap();
    insert_bytes(&mut backward, 12, &[3, 4]).unwrap();
    insert_bytes(&mut backward, 10, &[1, 2, 3]).unwrap();
    assert_eq!(forward, backward);
}

#[test]
fn bytes_do_not_run_past_the_last_address() {
    let mut memory: BTreeMap<u32, u8> = BTreeMap::new();
    assert_eq!(insert_bytes(&mut memory, u32::MAX, &[1]), Ok(()));
    assert_eq!(
        insert_bytes(&mut memory, u32::MAX - 1, &[5, 1, 2]),
        Err(PlaceError::AddressOverflow)
    );
    assert_eq!(insert_bytes(&mut memory, u32::MAX, &[]), Ok(()));
}

#[test]
fn the_bytes_before_a_conflict_are_placed_and_the_conflicting_one_is_replaced() {
    let mut memory: BTreeMap<u32, u8> = BTreeMap::from([(3, 30), (12, 9)]);
    assert_eq!(
        insert_bytes(&mut memory, 10, &[1, 2, 3, 4]),
        Err(PlaceError::Conflict { address: 12 })
    );
    assert_eq!(memory, BTreeMap::from([(3, 30), (10, 1), (11, 2), (12, 3)]));
}

#[test]
fn the_bytes_up_to_the_last_address_are_placed() {
    let mut memory: BTreeMap<u32, u8> = BTreeMap::new();
    assert_eq!(
        insert_bytes(&mut memory, u32::MAX - 1, &[1, 2, 3]),
        Err(PlaceError::AddressOverflow)
    );
    assert_eq!(memory, BTreeMap::from([(u32::MAX - 1, 1), (u32::MAX, 2)]));
}
