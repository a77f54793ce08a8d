//! Numbers in the byte order of a machine.

use vstd::bytes::*;
use vstd::prelude::*;

verus! {

/// Which byte of a number a machine keeps first.
#[derive(Clone, Copy, Debug, PartialEq, Eq, Structural)]
pub enum ByteOrder {
    /// The lowest.
    Little,
    /// The highest.
    Big,
}

/// What differs between machines in the calls of a task.
#[derive(Clone, Copy, Debug, PartialEq, Eq, Structural)]
pub struct Machine {
    /// The flag of an open that asks for a directory.
    pub directory: u64,
    /// The flag of an open that does not follow a link.
    pub nofollow: u64,
    pub order: ByteOrder,
}

/// The bytes of a number, turned between an order and the lowest byte first.
pub open spec fn turned(bytes: Seq<u8>, order: ByteOrder) -> Seq<u8> {
    match order {
        ByteOrder::Little => bytes,
        ByteOrder::Big => bytes.reverse(),
    }
}

/// The number that two bytes hold.
pub open spec fn u16_in(bytes: Seq<u8>, order: ByteOrder) -> u16 {
    spec_u16_from_le_bytes(turned(bytes, order))
}

/// The number that four bytes hold.
pub open spec fn u32_in(bytes: Seq<u8>, order: ByteOrder) -> u32 {
    spec_u32_from_le_bytes(turned(bytes, order))
}

/// The number that eight bytes hold.
pub open spec fn u64_in(bytes: Seq<u8>, order: ByteOrder) -> u64 {
    spec_u64_from_le_bytes(turned(bytes, order))
}

/// The bytes of a number of 16 bits.
pub open spec fn u16_image(number: u16, order: ByteOrder) -> Seq<u8> {
    turned(spec_u16_to_le_bytes(number), order)
}

/// The bytes of a number of 32 bits.
pub open spec fn u32_image(number: u32, order: ByteOrder) -> Seq<u8> {
    turned(spec_u32_to_le_bytes(number), order)
}

fn turn(bytes: &[u8], order: ByteOrder) -> (result: Vec<u8>)
    ensures
        result@ == turned(bytes@, order),
{
    let mut result: Vec<u8> = Vec::new();
    let mut i: usize = 0;
    while i < bytes.len()
        invariant
            i <= bytes@.len(),
            result@.len() == i,
            forall|j: int| 0 <= j < i ==> #[trigger] result@[j] == turned(bytes@, order)[j],
        decreases bytes@.len() - i,
    {
        let at: usize = match order {
            ByteOrder::Little => i,
            ByteOrder::Big => bytes.len() - 1 - i,
        };
        result.push(bytes[at]);
        i = i + 1;
    }
    proof {
        assert(result@ =~= turned(bytes@, order));
    }
    result
}

/// Reads two bytes.
pub fn read_u16(bytes: &[u8], order: ByteOrder) -> (number: u16)
    requires
        bytes@.len() == 2,
    ensures
        number == u16_in(bytes@, order),
{
    u16_from_le_bytes(turn(bytes, order).as_slice())
}

/// Reads four bytes.
pub fn read_u32(bytes: &[u8], order: ByteOrder) -> (number: u32)
    requires
        bytes@.len() == 4,
    ensures
        number == u32_in(bytes@, order),
{
    u32_from_le_bytes(turn(bytes, order).as_slice())
}

/// Reads eight bytes.
pub fn read_u64(bytes: &[u8], order: ByteOrder) -> (number: u64)
    requires
        bytes@.len() == 8,
    ensures
        number == u64_in(bytes@, order),
{
    u64_from_le_bytes(turn(bytes, order).as_slice())
}

/// Writes a number of 16 bits.
pub fn write_u16(number: u16, order: ByteOrder) -> (bytes: Vec<u8>)
    ensures
        bytes@ == u16_image(number, order),
        bytes@.len() == 2,
{
    let plain = u16_to_le_bytes(number);
    proof {
        lemma_auto_spec_u16_to_from_le_bytes();
    }
    turn(plain.as_slice(), order)
}

/// Writes a number of 32 bits.
pub fn write_u32(number: u32, order: ByteOrder) -> (bytes: Vec<u8>)
    ensures
        bytes@ == u32_image(number, order),
        bytes@.len() == 4,
{
    let plain = u32_to_le_bytes(number);
    proof {
        lemma_auto_spec_u32_to_from_le_bytes();
    }
    turn(plain.as_slice(), order)
}

/// A number that is written and read in one order is the same.
pub proof fn law_numbers_read_back(small: u16, large: u32, order: ByteOrder)
    ensures
        u16_in(u16_image(small, order), order) == small,
        u32_in(u32_image(large, order), order) == large,
{
    lemma_auto_spec_u16_to_from_le_bytes();
    lemma_auto_spec_u32_to_from_le_bytes();
    assert(spec_u16_to_le_bytes(small).reverse().reverse() =~= spec_u16_to_le_bytes(small));
    assert(spec_u32_to_le_bytes(large).reverse().reverse() =~= spec_u32_to_le_bytes(large));
}

/// A machine that keeps the lowest byte first reads and writes numbers from the lowest byte
/// on, one that keeps the highest first from the highest on.
pub proof fn law_orders_mirror_each_other(small: u16, large: u32, bytes: Seq<u8>)
    ensures
        u16_image(small, ByteOrder::Little) == spec_u16_to_le_bytes(small),
        u16_image(small, ByteOrder::Big) == spec_u16_to_le_bytes(small).reverse(),
        u32_image(large, ByteOrder::Little) == spec_u32_to_le_bytes(large),
        u32_image(large, ByteOrder::Big) == spec_u32_to_le_bytes(large).reverse(),
        u16_in(bytes, ByteOrder::Little) == spec_u16_from_le_bytes(bytes),
        u32_in(bytes, ByteOrder::Little) == spec_u32_from_le_bytes(bytes),
        u64_in(bytes, ByteOrder::Little) == spec_u64_from_le_bytes(bytes),
        u16_in(bytes, ByteOrder::Big) == u16_in(bytes.reverse(), ByteOrder::Little),
        u32_in(bytes, ByteOrder::Big) == u32_in(bytes.reverse(), ByteOrder::Little),
        u64_in(bytes, ByteOrder::Big) == u64_in(bytes.reverse(), ByteOrder::Little),
{
}

} // verus!
