//! The sealed payload that is handed to the bootstrap: the system call filter,
//! then the environment and the devices of the command.

use crate::bootstrap;
use crate::bootstrap::{write_filter, SockFilter};
use crate::bubblewrap::LaunchFault;
use crate::path::append_bytes;
use vstd::bytes::*;
use vstd::prelude::*;

verus! {

/// The most variables of a command.
pub const MAX_VARIABLES: usize = 16384;

/// The most bytes of the path of a device.
pub const MAX_DEVICE_BYTES: u32 = 4096;

/// The bytes of a string: its length, then itself.
pub open spec fn string_image(string: Seq<u8>) -> Seq<u8> {
    spec_u32_to_le_bytes(string.len() as u32) + string
}

/// The bytes of strings.
pub open spec fn strings_body(strings: Seq<Vec<u8>>) -> Seq<u8>
    decreases strings.len(),
{
    if strings.len() == 0 {
        Seq::empty()
    } else {
        strings_body(strings.drop_last()) + string_image(strings.last()@)
    }
}

/// The bytes of a list of strings: how many there are, then each.
pub open spec fn strings_image(strings: Seq<Vec<u8>>) -> Seq<u8> {
    spec_u32_to_le_bytes(strings.len() as u32) + strings_body(strings)
}

/// How many bytes strings have together.
pub open spec fn total_bytes(strings: Seq<Vec<u8>>) -> int
    decreases strings.len(),
{
    if strings.len() == 0 {
        0
    } else {
        total_bytes(strings.drop_last()) + strings.last()@.len()
    }
}

/// Whether strings keep within a limit.
pub open spec fn within(strings: Seq<Vec<u8>>, max_count: int, max_bytes: int) -> bool {
    strings.len() <= max_count && total_bytes(strings) <= max_bytes
}

proof fn lemma_total_grows(strings: Seq<Vec<u8>>, few: int)
    requires
        0 <= few <= strings.len(),
    ensures
        0 <= total_bytes(strings.take(few)) <= total_bytes(strings),
    decreases strings.len(),
{
    if few < strings.len() {
        lemma_total_grows(strings.drop_last(), few);
        assert(strings.drop_last().take(few) =~= strings.take(few));
    } else {
        assert(strings.take(few) =~= strings);
        if strings.len() > 0 {
            lemma_total_grows(strings.drop_last(), few - 1);
            assert(strings.drop_last().take(few - 1) =~= strings.drop_last());
        }
    }
}

/// Writes a list of strings behind what is there, where it keeps within a limit.
fn write_strings(target: &mut Vec<u8>, strings: &Vec<Vec<u8>>, max_count: usize, max_bytes: u64) -> (result: Result<
    (),
    LaunchFault,
>)
    requires
        max_count <= u32::MAX,
        max_bytes <= u32::MAX,
    ensures
        if within(strings@, max_count as int, max_bytes as int) {
            result is Ok && final(target)@ == old(target)@ + strings_image(strings@)
        } else {
            result == Err::<(), LaunchFault>(LaunchFault::StringsExceedLimit)
        },
{
    if strings.len() > max_count {
        return Err(LaunchFault::StringsExceedLimit);
    }
    let mut total: u64 = 0;
    let mut i: usize = 0;
    proof {
        assert(strings@.take(0) =~= Seq::<Vec<u8>>::empty());
    }
    while i < strings.len()
        invariant
            i <= strings@.len(),
            total == total_bytes(strings@.take(i as int)),
            total <= max_bytes <= u32::MAX,
        decreases strings@.len() - i,
    {
        let length = strings[i].len() as u64;
        proof {
            let more = strings@.take(i as int + 1);
            assert(more.drop_last() =~= strings@.take(i as int));
            assert(more.last() == strings@[i as int]);
            lemma_total_grows(strings@, i as int + 1);
        }
        if length > max_bytes - total {
            return Err(LaunchFault::StringsExceedLimit);
        }
        total = total + length;
        i = i + 1;
    }
    proof {
        assert(strings@.take(i as int) =~= strings@);
    }
    let ghost before = target@;
    let count = u32_to_le_bytes(strings.len() as u32);
    append_bytes(target, count.as_slice());
    let ghost head = target@;
    let mut k: usize = 0;
    proof {
        assert(head + Seq::<u8>::empty() =~= head);
    }
    while k < strings.len()
        invariant
            k <= strings@.len(),
            target@ == head + strings_body(strings@.take(k as int)),
            total_bytes(strings@) <= max_bytes <= u32::MAX,
        decreases strings@.len() - k,
    {
        let ghost now = target@;
        let ghost more = strings@.take(k as int + 1);
        proof {
            assert(more.drop_last() =~= strings@.take(k as int));
            assert(more.last() == strings@[k as int]);
            lemma_total_grows(strings@, k as int + 1);
            lemma_total_grows(strings@, k as int);
        }
        let length = u32_to_le_bytes(strings[k].len() as u32);
        append_bytes(target, length.as_slice());
        append_bytes(target, strings[k].as_slice());
        proof {
            assert(target@ =~= head + strings_body(more));
        }
        k = k + 1;
    }
    proof {
        assert(strings@.take(k as int) =~= strings@);
        assert(target@ =~= before + strings_image(strings@));
    }
    Ok(())
}

/// The payload of a launch.
pub open spec fn payload_image(filter: Seq<SockFilter>, environment: Seq<Vec<u8>>, devices: Seq<Vec<u8>>) -> Seq<u8> {
    bootstrap::filter_image(filter) + strings_image(environment) + strings_image(devices)
}

/// Writes the payload of a launch: the filter, the environment of at most so many
/// bytes, and at most so many devices.
pub fn make_filter_payload(
    filter: &Vec<SockFilter>,
    environment: &Vec<Vec<u8>>,
    devices: &Vec<Vec<u8>>,
    max_environment_bytes: u32,
    max_devices: u32,
) -> (result: Result<Vec<u8>, LaunchFault>)
    requires
        filter@.len() <= u32::MAX,
        max_devices <= 0xf_ffff,
    ensures
        if within(environment@, MAX_VARIABLES as int, max_environment_bytes as int) && within(
            devices@,
            max_devices as int,
            max_devices * MAX_DEVICE_BYTES,
        ) {
            result matches Ok(bytes) && bytes@ == payload_image(filter@, environment@, devices@)
        } else {
            result == Err::<Vec<u8>, LaunchFault>(LaunchFault::StringsExceedLimit)
        },
{
    let mut bytes = write_filter(filter);
    match write_strings(&mut bytes, environment, MAX_VARIABLES, max_environment_bytes as u64) {
        Ok(_) => {},
        Err(fault) => {
            return Err(fault);
        },
    }
    match write_strings(&mut bytes, devices, max_devices as usize, max_devices as u64 * MAX_DEVICE_BYTES as u64) {
        Ok(_) => Ok(bytes),
        Err(fault) => Err(fault),
    }
}

/// The bootstrap finds in a payload the filter that was put into it, whatever
/// environment and devices come with it.
pub proof fn law_payload_hands_over_the_filter(
    filter: Seq<SockFilter>,
    environment: Seq<Vec<u8>>,
    devices: Seq<Vec<u8>>,
)
    requires
        0 < filter.len() <= bootstrap::MAX_FILTER_INSTRUCTIONS,
    ensures
        bootstrap::filter_fault(payload_image(filter, environment, devices)) is None,
        Seq::new(
            bootstrap::announced(payload_image(filter, environment, devices)) as nat,
            |i: int| bootstrap::instruction_at(payload_image(filter, environment, devices), i),
        ) == filter,
{
    let rest = strings_image(environment) + strings_image(devices);
    assert(payload_image(filter, environment, devices) =~= bootstrap::filter_image(filter) + rest);
    bootstrap::law_filter_reads_back(filter, rest);
}

/// Strings are handed over behind their number, each behind its length, four bytes for each
/// number with the lowest first.
pub proof fn law_strings_follow_their_lengths(strings: Seq<Vec<u8>>, last: Vec<u8>)
    ensures
        strings_image(Seq::empty()) == spec_u32_to_le_bytes(0),
        strings_image(strings) == spec_u32_to_le_bytes(strings.len() as u32) + strings_body(strings),
        strings_body(strings.push(last)) == strings_body(strings) + spec_u32_to_le_bytes(last@.len() as u32) + last@,
        total_bytes(strings.push(last)) == total_bytes(strings) + last@.len(),
        total_bytes(Seq::empty()) == 0,
{
    assert(strings.push(last).drop_last() =~= strings);
    assert(strings_body(strings.push(last)) =~= strings_body(strings) + spec_u32_to_le_bytes(last@.len() as u32) + last@);
    assert(strings_image(Seq::empty()) =~= spec_u32_to_le_bytes(0));
}

/// Strings are within their limits exactly where neither their number nor their bytes are
/// too many.
pub proof fn law_handed_over_strings_are_bounded(strings: Seq<Vec<u8>>, max_count: int, max_bytes: int)
    ensures
        within(strings, max_count, max_bytes) <==> strings.len() <= max_count && total_bytes(strings) <= max_bytes,
        within(strings, strings.len() as int, total_bytes(strings)),
        strings.len() > 0 ==> !within(strings, strings.len() - 1, total_bytes(strings)),
{
}

} // verus!
