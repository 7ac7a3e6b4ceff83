//! The memory that a firmware file describes: bytes at addresses.

use std::collections::BTreeMap;
use vstd::prelude::*;

verus! {

/// Why bytes cannot be placed in memory.
#[derive(Debug, Clone, Copy, PartialEq, Eq, Structural)]
pub enum PlaceError {
    /// Another byte is already there.
    Conflict { address: u32 },
    /// The bytes run past the last address.
    AddressOverflow,
}

/// The memory with `bytes` placed from `address` on. The first byte that finds no place decides
/// the error.
pub open spec fn place(memory: Map<u32, u8>, address: int, bytes: Seq<u8>) -> Result<
    Map<u32, u8>,
    PlaceError,
>
    decreases bytes.len(),
{
    if bytes.len() == 0 {
        Ok(memory)
    } else if address > u32::MAX {
        Err(PlaceError::AddressOverflow)
    } else if memory.contains_key(address as u32) && memory[address as u32] != bytes[0] {
        Err(PlaceError::Conflict { address: address as u32 })
    } else {
        place(memory.insert(address as u32, bytes[0]), address + 1, bytes.skip(1))
    }
}

/// Puts a byte at an address. A different byte that is there already is an error, though it is
/// replaced.
pub fn insert_byte(memory: &mut BTreeMap<u32, u8>, address: u32, value: u8) -> (result: Result<
    (),
    PlaceError,
>)
    ensures
        final(memory)@ == old(memory)@.insert(address, value),
        result == (if old(memory)@.contains_key(address) && old(memory)@[address] != value {
            Err(PlaceError::Conflict { address })
        } else {
            Ok(())
        }),
{
    match memory.insert(address, value) {
        Some(old) if old != value => Err(PlaceError::Conflict { address }),
        _ => Ok(()),
    }
}

/// Bytes are placed one behind the other.
proof fn lemma_place_push(memory: Map<u32, u8>, address: int, bytes: Seq<u8>, value: u8)
    requires
        place(memory, address, bytes) is Ok,
        0 <= address,
        address + bytes.len() <= u32::MAX,
    ensures
        ({
            let next = (address + bytes.len()) as u32;
            let placed = place(memory, address, bytes)->Ok_0;
            place(memory, address, bytes.push(value)) == (if placed.contains_key(next)
                && placed[next] != value {
                Err(PlaceError::Conflict { address: next })
            } else {
                Ok(placed.insert(next, value))
            })
        }),
    decreases bytes.len(),
{
    if bytes.len() > 0 {
        assert(bytes.push(value).skip(1) =~= bytes.skip(1).push(value));
        lemma_place_push(
            memory.insert(address as u32, bytes[0]),
            address + 1,
            bytes.skip(1),
            value,
        );
    } else {
        assert(bytes.push(value).skip(1) =~= Seq::<u8>::empty());
        reveal_with_fuel(place, 2);
    }
}

/// Places bytes in memory. On an error memory holds the bytes before the one that found no place,
/// and at a conflict that one too, in place of the byte that was there.
pub fn insert_bytes(memory: &mut BTreeMap<u32, u8>, address: u32, bytes: &[u8]) -> (result: Result<
    (),
    PlaceError,
>)
    ensures
        match place(old(memory)@, address as int, bytes@) {
            Ok(placed) => result is Ok && final(memory)@ == placed,
            Err(PlaceError::Conflict { address: taken }) => {
                let before = place(old(memory)@, address as int, bytes@.take(taken - address));
                &&& result == Err::<(), PlaceError>(PlaceError::Conflict { address: taken })
                &&& address <= taken < address + bytes@.len()
                &&& before is Ok
                &&& final(memory)@ == before->Ok_0.insert(taken, bytes@[taken - address])
            },
            Err(PlaceError::AddressOverflow) => {
                let before = place(
                    old(memory)@,
                    address as int,
                    bytes@.take(u32::MAX + 1 - address),
                );
                &&& result == Err::<(), PlaceError>(PlaceError::AddressOverflow)
                &&& address + bytes@.len() > u32::MAX + 1
                &&& before is Ok
                &&& final(memory)@ == before->Ok_0
            },
        },
{
    let ghost whole = place(memory@, address as int, bytes@);
    let mut index: usize = 0;
    assert(bytes@.skip(0) =~= bytes@);
    assert(bytes@.take(0) =~= Seq::<u8>::empty());
    while index < bytes.len()
        invariant
            index <= bytes@.len(),
            whole == place(old(memory)@, address as int, bytes@),
            place(memory@, address + index, bytes@.skip(index as int)) == whole,
            place(old(memory)@, address as int, bytes@.take(index as int)) == Ok::<_, PlaceError>(
                memory@,
            ),
            index > 0 ==> address + index <= u32::MAX + 1,
        decreases bytes@.len() - index,
    {
        if index as u64 > (u32::MAX - address) as u64 {
            return Err(PlaceError::AddressOverflow);
        }
        proof {
            assert(bytes@.skip(index as int).skip(1) =~= bytes@.skip(index + 1));
            assert(bytes@.take(index as int).push(bytes@[index as int]) =~= bytes@.take(index + 1));
            lemma_place_push(
                old(memory)@,
                address as int,
                bytes@.take(index as int),
                bytes@[index as int],
            );
        }
        match insert_byte(memory, address + index as u32, bytes[index]) {
            Ok(()) => {},
            Err(error) => {
                return Err(error);
            },
        }
        index += 1;
    }
    Ok(())
}

/// Whether an address is one of those that bytes from `address` on take.
pub open spec fn covers(address: int, bytes: Seq<u8>, key: u32) -> bool {
    address <= key < address + bytes.len()
}

/// Whether `bytes` agree with what memory holds where they go.
pub open spec fn agrees(memory: Map<u32, u8>, address: int, bytes: Seq<u8>) -> bool {
    forall|key: u32|
        #[trigger] memory.contains_key(key) && covers(address, bytes, key) ==> memory[key]
            == bytes[key - address]
}

/// Whether memory `placed` is `memory` with `bytes` laid over it.
pub open spec fn overlays(
    memory: Map<u32, u8>,
    address: int,
    bytes: Seq<u8>,
    placed: Map<u32, u8>,
) -> bool {
    forall|key: u32|
        #![trigger placed.contains_key(key)]
        #![trigger memory.contains_key(key)]
        {
            &&& placed.contains_key(key) <==> memory.contains_key(key) || covers(
                address,
                bytes,
                key,
            )
            &&& memory.contains_key(key) ==> placed[key] == memory[key]
            &&& covers(address, bytes, key) ==> placed[key] == bytes[key - address]
        }
}

/// Memory holds the bytes that are laid over it.
pub proof fn lemma_overlaid_byte(
    memory: Map<u32, u8>,
    address: int,
    bytes: Seq<u8>,
    placed: Map<u32, u8>,
    key: u32,
)
    requires
        overlays(memory, address, bytes, placed),
        covers(address, bytes, key),
    ensures
        placed.contains_key(key),
        placed[key] == bytes[key - address],
{
    assert(placed.contains_key(key));
}

/// Bytes find a place exactly when none of them lies past the last address and none differs from
/// a byte that is there already. Memory then holds them, and all that it held before.
pub proof fn law_place_overlays(memory: Map<u32, u8>, address: int, bytes: Seq<u8>)
    requires
        0 <= address,
    ensures
        place(memory, address, bytes) is Ok <==> (bytes.len() == 0 || address + bytes.len()
            <= u32::MAX + 1) && agrees(memory, address, bytes),
        place(memory, address, bytes) matches Ok(placed) ==> overlays(
            memory,
            address,
            bytes,
            placed,
        ),
    decreases bytes.len(),
{
    if bytes.len() > 0 && address <= u32::MAX {
        let rest = bytes.skip(1);
        let next = memory.insert(address as u32, bytes[0]);
        law_place_overlays(next, address + 1, rest);
        if agrees(memory, address, bytes) {
            assert(agrees(next, address + 1, rest));
        }
        if place(memory, address, bytes) is Ok {
            assert forall|key: u32| #[trigger]
                memory.contains_key(key) && covers(address, bytes, key) implies memory[key]
                == bytes[key - address] by {
                assert(next.contains_key(key));
            }
            let placed = place(memory, address, bytes)->Ok_0;
            assert forall|key: u32|
                #![trigger placed.contains_key(key)]
                #![trigger memory.contains_key(key)]
                {
                    &&& placed.contains_key(key) <==> memory.contains_key(key) || covers(
                        address,
                        bytes,
                        key,
                    )
                    &&& memory.contains_key(key) ==> placed[key] == memory[key]
                    &&& covers(address, bytes, key) ==> placed[key] == bytes[key - address]
                } by {
                assert(next.contains_key(key) <==> memory.contains_key(key) || key == address);
            }
        }
    }
}

/// Two blocks that both find a place find it in either order, and leave the same memory.
pub proof fn law_place_order_is_irrelevant(
    memory: Map<u32, u8>,
    first: int,
    first_bytes: Seq<u8>,
    second: int,
    second_bytes: Seq<u8>,
)
    requires
        0 <= first,
        0 <= second,
        place(memory, first, first_bytes) is Ok,
        place(place(memory, first, first_bytes)->Ok_0, second, second_bytes) is Ok,
    ensures
        place(memory, second, second_bytes) is Ok,
        place(place(memory, second, second_bytes)->Ok_0, first, first_bytes) == place(
            place(memory, first, first_bytes)->Ok_0,
            second,
            second_bytes,
        ),
{
    let one = place(memory, first, first_bytes)->Ok_0;
    let both = place(one, second, second_bytes)->Ok_0;
    law_place_overlays(memory, first, first_bytes);
    law_place_overlays(one, second, second_bytes);
    law_place_overlays(memory, second, second_bytes);
    assert forall|key: u32| #[trigger]
        memory.contains_key(key) && covers(second, second_bytes, key) implies memory[key]
        == second_bytes[key - second] by {
        assert(one.contains_key(key));
    }
    let other = place(memory, second, second_bytes)->Ok_0;
    law_place_overlays(other, first, first_bytes);
    assert forall|key: u32| #[trigger]
        other.contains_key(key) && covers(first, first_bytes, key) implies other[key]
        == first_bytes[key - first] by {
        assert(one.contains_key(key));
        assert(both.contains_key(key));
        assert(memory.contains_key(key) || !memory.contains_key(key));
    }
    let swapped = place(other, first, first_bytes)->Ok_0;
    assert forall|key: u32| #[trigger]
        swapped.contains_key(key) == both.contains_key(key) && (swapped.contains_key(key)
            ==> swapped[key] == both[key]) by {
        assert(memory.contains_key(key) || !memory.contains_key(key));
        assert(one.contains_key(key) || !one.contains_key(key));
        assert(other.contains_key(key) || !other.contains_key(key));
    }
    assert(swapped =~= both);
}

/// The first byte that finds no place decides: past the last address it is an overflow, and at an
/// address with a different byte it is a conflict, which names the address.
pub proof fn law_the_first_byte_without_a_place_decides(
    memory: Map<u32, u8>,
    address: int,
    bytes: Seq<u8>,
    i: int,
)
    requires
        0 <= address,
        0 <= i < bytes.len(),
        address + i <= u32::MAX + 1,
        forall|j: int|
            0 <= j < i && memory.contains_key((address + j) as u32) ==> memory[(address
                + j) as u32] == #[trigger] bytes[j],
    ensures
        address + i > u32::MAX ==> place(memory, address, bytes) == Err::<
            Map<u32, u8>,
            PlaceError,
        >(PlaceError::AddressOverflow),
        address + i <= u32::MAX && memory.contains_key((address + i) as u32) && memory[(address
            + i) as u32] != bytes[i] ==> place(memory, address, bytes) == Err::<
            Map<u32, u8>,
            PlaceError,
        >(PlaceError::Conflict { address: (address + i) as u32 }),
    decreases i,
{
    if i > 0 {
        let more = memory.insert(address as u32, bytes[0]);
        let rest = bytes.skip(1);
        assert(memory.contains_key((address + 0) as u32) ==> memory[(address + 0) as u32]
            == bytes[0]);
        assert forall|j: int|
            0 <= j < i - 1 && more.contains_key((address + 1 + j) as u32) implies more[(address + 1
            + j) as u32] == #[trigger] rest[j] by {
            assert(rest[j] == bytes[j + 1]);
            assert((address + 1 + j) as u32 == (address + (j + 1)) as u32);
        }
        law_the_first_byte_without_a_place_decides(more, address + 1, rest, i - 1);
    }
}

} // verus!
