//! The launcher of the mount namespace backend: which arguments, descriptors and
//! environment the launch is made of, and the frame that comes back from it.

pub mod environment;
pub mod launch;
pub mod mounting;
pub mod payload;

use crate::filesystem_backend;
use crate::filesystem_backend::{EntryPurpose, FilesystemEntry, MountAccess};
use crate::path;
use crate::path::{bytes_equal, components, join_path, path_starts_with, strip_prefix};
use crate::text;
use crate::text::{append_text, chars_of, split_words, string_of};
use vstd::bytes::*;
use vstd::prelude::*;
use vstd::string::*;

verus! {

/// What stops a launch.
#[derive(Clone, Copy, Debug, PartialEq, Eq, Structural)]
pub enum LaunchFault {
    /// A source could not be opened.
    Open,
    /// An argument or a variable holds a NUL byte.
    NulByte,
    /// A device could not be looked at.
    DeviceUnreadable,
    /// A device that may only be read is not a plain byte stream.
    DeviceKind,
    /// The name of a variable holds an equals sign.
    EqualsInName,
    /// There are too many strings, or they are too long.
    StringsExceedLimit,
}

pub const VERSION_START: &'static str = "bwrap-";

/// The identity of a launcher: the last word that it tells of its version.
pub fn version_identity(output: &str) -> (identity: Option<String>)
    ensures
        match identity {
            Some(id) => text::words(output@).len() > 0 && id@ == VERSION_START@ + text::words(output@).last(),
            None => text::words(output@).len() == 0,
        },
{
    let words = split_words(output);
    proof {
        assert(text::words(output@).len() == words@.len());
    }
    if words.len() == 0 {
        return None;
    }
    let last = words.len() - 1;
    proof {
        assert(text::words(output@)[last as int] == words@[last as int]@);
    }
    let mut chars = chars_of(VERSION_START);
    append_text(&mut chars, words[last].as_str());
    Some(string_of(&chars))
}

/// How the opening of a source came out.
#[derive(Clone, Copy, Debug, PartialEq, Eq, Structural)]
pub enum SourceOutcome {
    Opened(i32),
    NotFound,
    Failed,
}

/// Whether an entry may be left out where its source is missing: one that a
/// policy grants for reading.
pub open spec fn is_optional(entry: filesystem_backend::PlanEntry) -> bool {
    entry.purpose == EntryPurpose::PolicyGrant && entry.access == MountAccess::ReadOnly
}

/// The descriptor of the source of an entry, or nothing where the entry is left
/// out.
pub fn open_entry(entry: &FilesystemEntry, outcome: SourceOutcome) -> (result: Result<Option<i32>, LaunchFault>)
    ensures
        result == match outcome {
            SourceOutcome::Opened(fd) => Ok::<Option<i32>, LaunchFault>(Some(fd)),
            SourceOutcome::NotFound => if is_optional(entry@) {
                Ok::<Option<i32>, LaunchFault>(None)
            } else {
                Err::<Option<i32>, LaunchFault>(LaunchFault::Open)
            },
            SourceOutcome::Failed => Err::<Option<i32>, LaunchFault>(LaunchFault::Open),
        },
{
    match outcome {
        SourceOutcome::Opened(fd) => Ok(Some(fd)),
        SourceOutcome::NotFound => {
            if entry.purpose == EntryPurpose::PolicyGrant && entry.access == MountAccess::ReadOnly {
                Ok(None)
            } else {
                Err(LaunchFault::Open)
            }
        },
        SourceOutcome::Failed => Err(LaunchFault::Open),
    }
}

/// How many parts a path has.
pub open spec fn part_count(written: Seq<u8>) -> int {
    path::parts(written).len() as int
}

/// Whether an entry shows a path.
pub open spec fn shows(entry: filesystem_backend::PlanEntry, written: Seq<u8>) -> bool {
    path::starts_with(path::parts(written), path::parts(entry.guest_path))
}

/// Whether an entry is the innermost that shows a path; of two that are as deep,
/// the later one.
pub open spec fn is_innermost(entries: Seq<filesystem_backend::PlanEntry>, written: Seq<u8>, i: int) -> bool {
    &&& 0 <= i < entries.len()
    &&& shows(entries[i], written)
    &&& forall|j: int|
        0 <= j < entries.len() && shows(#[trigger] entries[j], written) ==> part_count(entries[j].guest_path)
            < part_count(entries[i].guest_path) || (part_count(entries[j].guest_path) == part_count(
            entries[i].guest_path,
        ) && j <= i)
}

/// Where a path lies on the host, by an entry that shows it.
pub open spec fn source_below(entry: filesystem_backend::PlanEntry, written: Seq<u8>) -> Seq<u8> {
    path::joined_path(
        entry.host_source,
        path::way_bytes(path::parts(written).skip(part_count(entry.guest_path))),
    )
}

/// The source of a denied path, by the innermost entry that shows it.
pub fn deny_source(entries: &Vec<FilesystemEntry>, denied: &[u8]) -> (source: Option<Vec<u8>>)
    ensures
        match source {
            Some(bytes) => exists|i: int|
                is_innermost(filesystem_backend::entry_views(entries@), denied@, i) && bytes@ == source_below(
                    #[trigger] filesystem_backend::entry_views(entries@)[i],
                    denied@,
                ),
            None => forall|i: int|
                0 <= i < entries@.len() ==> !shows(
                    #[trigger] filesystem_backend::entry_views(entries@)[i],
                    denied@,
                ),
        },
{
    let ghost all = filesystem_backend::entry_views(entries@);
    let mut best: Option<usize> = None;
    let mut best_count: usize = 0;
    let mut i: usize = 0;
    while i < entries.len()
        invariant
            i <= entries@.len(),
            all == filesystem_backend::entry_views(entries@),
            match best {
                Some(b) => is_innermost(all.take(i as int), denied@, b as int) && best_count == part_count(
                    all[b as int].guest_path,
                ),
                None => forall|j: int| 0 <= j < i ==> !shows(#[trigger] all[j], denied@),
            },
        decreases entries@.len() - i,
    {
        let ghost few = all.take(i as int);
        let ghost more = all.take(i as int + 1);
        proof {
            assert(all[i as int] == entries@[i as int]@);
            assert(more =~= few.push(all[i as int]));
            assert forall|j: int| 0 <= j < i implies #[trigger] more[j] == few[j] by {}
        }
        if path_starts_with(denied, entries[i].guest_path.as_slice()) {
            let count = components(entries[i].guest_path.as_slice()).len();
            let better = match best {
                Some(_) => count >= best_count,
                None => true,
            };
            if better {
                best = Some(i);
                best_count = count;
                proof {
                    assert forall|j: int| 0 <= j < more.len() && shows(#[trigger] more[j], denied@) implies part_count(
                        more[j].guest_path,
                    ) < part_count(more[i as int].guest_path) || (part_count(more[j].guest_path) == part_count(
                        more[i as int].guest_path,
                    ) && j <= i) by {
                        if j < i {
                            assert(few[j] == all[j]);
                        }
                    }
                }
            } else {
                proof {
                    let b = best->Some_0 as int;
                    assert(few[b] == all[b]);
                    assert forall|j: int| 0 <= j < more.len() && shows(#[trigger] more[j], denied@) implies part_count(
                        more[j].guest_path,
                    ) < part_count(more[b].guest_path) || (part_count(more[j].guest_path) == part_count(
                        more[b].guest_path,
                    ) && j <= b) by {
                        if j < i {
                            assert(few[j] == all[j]);
                        }
                    }
                }
            }
        } else {
            proof {
                match best {
                    Some(b) => {
                        assert(few[b as int] == all[b as int]);
                        assert forall|j: int| 0 <= j < more.len() && shows(#[trigger] more[j], denied@) implies part_count(
                            more[j].guest_path,
                        ) < part_count(more[b as int].guest_path) || (part_count(more[j].guest_path) == part_count(
                            more[b as int].guest_path,
                        ) && j <= b) by {
                            if j < i {
                                assert(few[j] == all[j]);
                            }
                        }
                    },
                    None => {},
                }
            }
        }
        i = i + 1;
    }
    proof {
        assert(all.take(i as int) =~= all);
    }
    match best {
        None => None,
        Some(b) => {
            proof {
                assert(all[b as int] == entries@[b as int]@);
            }
            match strip_prefix(denied, entries[b].guest_path.as_slice()) {
                Some(rest) => Some(join_path(entries[b].host_source.as_slice(), rest.as_slice())),
                None => None,
            }
        },
    }
}

/// What can be wrong with the frame of a listener.
#[derive(Clone, Copy, Debug, PartialEq, Eq, Structural)]
pub enum ListenerFault {
    /// The control message does not hold descriptors as it should.
    Descriptors,
    Frame,
    Pid,
    WaitMode,
}

/// How many bytes a descriptor has.
pub const FD_BYTES: usize = 4;

/// How many bytes the frame of a listener has.
pub const LISTENER_BYTES: usize = 16;

/// The bytes of a control message that hold descriptors.
pub open spec fn descriptor_bytes(message_bytes: usize, header_bytes: usize) -> int {
    if message_bytes <= header_bytes {
        0
    } else {
        message_bytes - header_bytes
    }
}

/// How many descriptors a control message holds: the listener, and at most so
/// many devices.
pub fn count_descriptors(message_bytes: usize, header_bytes: usize, max_devices: u32) -> (result: Result<
    usize,
    ListenerFault,
>)
    ensures
        ({
            let bytes = descriptor_bytes(message_bytes, header_bytes);
            if bytes == 0 || bytes > (1 + max_devices) * FD_BYTES || bytes % (FD_BYTES as int) != 0 {
                result == Err::<usize, ListenerFault>(ListenerFault::Descriptors)
            } else {
                result matches Ok(count) && count * FD_BYTES == bytes
            }
        }),
{
    let bytes: usize = if message_bytes <= header_bytes {
        0
    } else {
        message_bytes - header_bytes
    };
    let max: u64 = (1 + max_devices as u64) * FD_BYTES as u64;
    if bytes == 0 || bytes as u64 > max || bytes % FD_BYTES != 0 {
        return Err(ListenerFault::Descriptors);
    }
    Ok(bytes / FD_BYTES)
}

/// How many devices a frame announces.
pub open spec fn announced_devices(payload: Seq<u8>) -> int {
    spec_u32_from_le_bytes(payload.subrange(12, 16)) as int
}

/// Checks the frame of a listener; tells how many devices come with it.
pub fn check_listener_frame(
    received: usize,
    payload: &[u8],
    is_truncated: bool,
    descriptors: usize,
    max_devices: u32,
) -> (result: Result<u32, ListenerFault>)
    requires
        payload@.len() == LISTENER_BYTES,
    ensures
        if received != LISTENER_BYTES || payload@.take(4) != crate::bootstrap::listener_magic() || is_truncated
            || announced_devices(payload@) > max_devices || descriptors != 1 + announced_devices(payload@) {
            result == Err::<u32, ListenerFault>(ListenerFault::Frame)
        } else {
            result matches Ok(count) && count == announced_devices(payload@)
        },
{
    let magic: Vec<u8> = vec![0x53, 0x4c, 0x4e, 0x46];
    let word = vstd::slice::slice_subrange(payload, 0, 4);
    proof {
        assert(magic@ =~= crate::bootstrap::listener_magic());
        assert(word@ =~= payload@.take(4));
    }
    let count = u32_from_le_bytes(vstd::slice::slice_subrange(payload, 12, 16));
    if received != LISTENER_BYTES || !bytes_equal(word, magic.as_slice()) || is_truncated || count > max_devices
        || descriptors as u64 != 1 + count as u64 {
        return Err(ListenerFault::Frame);
    }
    Ok(count)
}

/// The process that a frame names.
pub open spec fn told_pid(payload: Seq<u8>) -> i32 {
    spec_u32_from_le_bytes(payload.subrange(4, 8)) as i32
}

/// The wait mode that a frame names.
pub open spec fn told_mode(payload: Seq<u8>) -> u32 {
    spec_u32_from_le_bytes(payload.subrange(8, 12))
}

/// Reads the process and the wait mode out of the frame of a listener: whether a
/// received notification can only be left by a kill.
pub fn read_listener(payload: &[u8]) -> (result: Result<(i32, bool), ListenerFault>)
    requires
        payload@.len() == LISTENER_BYTES,
    ensures
        result == if told_pid(payload@) <= 0 {
            Err::<(i32, bool), ListenerFault>(ListenerFault::Pid)
        } else if told_mode(payload@) > 1 {
            Err::<(i32, bool), ListenerFault>(ListenerFault::WaitMode)
        } else {
            Ok::<(i32, bool), ListenerFault>((told_pid(payload@), told_mode(payload@) == 1))
        },
{
    let pid = u32_from_le_bytes(vstd::slice::slice_subrange(payload, 4, 8)) as i32;
    if pid <= 0 {
        return Err(ListenerFault::Pid);
    }
    let mode = u32_from_le_bytes(vstd::slice::slice_subrange(payload, 8, 12));
    if mode == 0 {
        Ok((pid, false))
    } else if mode == 1 {
        Ok((pid, true))
    } else {
        Err(ListenerFault::WaitMode)
    }
}

/// What the child does to itself before it becomes the launcher.
#[derive(Clone, Copy, Debug, PartialEq, Eq, Structural)]
pub enum SetupStep {
    OwnProcessGroup,
    TakeTerminal,
    DieWithParent,
    FixedAddresses,
    PinToCores,
    NoHugePages,
    NoCoreDumps,
    LimitOpenFiles,
    KeepDescriptors,
    Exec,
}

/// What of its setup a child is asked for.
#[derive(Clone, Copy, Debug)]
pub struct ChildSetup {
    pub session_created: bool,
    pub foreground_terminal: bool,
    pub no_randomize_memory: bool,
    pub has_cores: bool,
    pub no_huge_pages: bool,
    pub no_coredump: bool,
    pub limits_open_files: bool,
}

/// One step where it is asked for.
pub open spec fn step_if(asked: bool, step: SetupStep) -> Seq<SetupStep> {
    if asked {
        seq![step]
    } else {
        Seq::empty()
    }
}

/// The steps of a child, in their order.
pub open spec fn steps_of(setup: ChildSetup) -> Seq<SetupStep> {
    step_if(!setup.session_created, SetupStep::OwnProcessGroup) + step_if(
        setup.foreground_terminal,
        SetupStep::TakeTerminal,
    ) + seq![SetupStep::DieWithParent] + step_if(setup.no_randomize_memory, SetupStep::FixedAddresses) + step_if(
        setup.has_cores,
        SetupStep::PinToCores,
    ) + step_if(setup.no_huge_pages, SetupStep::NoHugePages) + step_if(setup.no_coredump, SetupStep::NoCoreDumps)
        + step_if(setup.limits_open_files, SetupStep::LimitOpenFiles) + seq![
        SetupStep::KeepDescriptors,
        SetupStep::Exec,
    ]
}

fn push_if(steps: &mut Vec<SetupStep>, asked: bool, step: SetupStep)
    ensures
        final(steps)@ == old(steps)@ + step_if(asked, step),
{
    let ghost before = steps@;
    if asked {
        steps.push(step);
    }
    proof {
        assert(steps@ =~= before + step_if(asked, step));
    }
}

/// The steps of a child, in their order.
pub fn exec_child(setup: ChildSetup) -> (steps: Vec<SetupStep>)
    ensures
        steps@ == steps_of(setup),
{
    let mut steps: Vec<SetupStep> = Vec::new();
    push_if(&mut steps, !setup.session_created, SetupStep::OwnProcessGroup);
    proof {
        assert(steps@ =~= step_if(!setup.session_created, SetupStep::OwnProcessGroup));
    }
    push_if(&mut steps, setup.foreground_terminal, SetupStep::TakeTerminal);
    push_if(&mut steps, true, SetupStep::DieWithParent);
    push_if(&mut steps, setup.no_randomize_memory, SetupStep::FixedAddresses);
    push_if(&mut steps, setup.has_cores, SetupStep::PinToCores);
    push_if(&mut steps, setup.no_huge_pages, SetupStep::NoHugePages);
    push_if(&mut steps, setup.no_coredump, SetupStep::NoCoreDumps);
    push_if(&mut steps, setup.limits_open_files, SetupStep::LimitOpenFiles);
    let ghost before = steps@;
    steps.push(SetupStep::KeepDescriptors);
    steps.push(SetupStep::Exec);
    proof {
        assert(steps@ =~= before + seq![SetupStep::KeepDescriptors, SetupStep::Exec]);
    }
    steps
}

/// The limit on open files: never above what was inherited.
pub fn open_files_limit(max: u64, soft: u64, hard: u64) -> (limit: u64)
    ensures
        limit <= max && limit <= soft && limit <= hard,
        limit == max || limit == soft || limit == hard,
{
    let mut limit: u64 = max;
    if soft < limit {
        limit = soft;
    }
    if hard < limit {
        limit = hard;
    }
    limit
}

/// Only a granted path that may only be read can be missing.
pub proof fn law_only_readable_grants_are_optional(entry: filesystem_backend::PlanEntry)
    ensures
        is_optional(entry) <==> entry.purpose is PolicyGrant && entry.access is ReadOnly,
{
}

/// The innermost entry that shows a path is the one with the longest way, and the later one
/// of two with the same; there is never more than one. What is below it is looked for below
/// its source.
pub proof fn law_innermost_entries_show_a_path(
    entries: Seq<filesystem_backend::PlanEntry>,
    written: Seq<u8>,
    i: int,
    j: int,
)
    requires
        is_innermost(entries, written, i),
        0 <= j < entries.len(),
        path::starts_with(path::parts(written), path::parts(entries[j].guest_path)),
    ensures
        path::starts_with(path::parts(written), path::parts(entries[i].guest_path)),
        path::parts(entries[j].guest_path).len() <= path::parts(entries[i].guest_path).len(),
        path::parts(entries[j].guest_path).len() == path::parts(entries[i].guest_path).len() ==> j <= i,
        is_innermost(entries, written, j) ==> i == j,
        source_below(entries[i], written) == path::joined_path(
            entries[i].host_source,
            path::way_bytes(path::parts(written).skip(path::parts(entries[i].guest_path).len() as int)),
        ),
{
    assert(shows(entries[j], written));
}

/// A listener is announced by a frame of sixteen bytes: four of a mark, then the process,
/// whether it waits, and the number of devices, each in four bytes with the lowest first.
pub proof fn law_listeners_are_read_back(pid: u32, mode: u32, devices: u32)
    ensures
        ({
            let payload = crate::bootstrap::listener_magic() + spec_u32_to_le_bytes(pid) + spec_u32_to_le_bytes(mode)
                + spec_u32_to_le_bytes(devices);
            &&& payload.len() == 16
            &&& payload.take(4) == "SLNF".spec_bytes()
            &&& told_pid(payload) == pid as i32
            &&& told_mode(payload) == mode
            &&& announced_devices(payload) == devices
        }),
{
    lemma_auto_spec_u32_to_from_le_bytes();
    reveal_strlit("SLNF");
    vstd::utf8::is_ascii_chars_encode_utf8("SLNF"@);
    let payload = crate::bootstrap::listener_magic() + spec_u32_to_le_bytes(pid) + spec_u32_to_le_bytes(mode)
        + spec_u32_to_le_bytes(devices);
    assert(payload.take(4) =~= "SLNF".spec_bytes());
    assert(payload.subrange(4, 8) =~= spec_u32_to_le_bytes(pid));
    assert(payload.subrange(8, 12) =~= spec_u32_to_le_bytes(mode));
    assert(payload.subrange(12, 16) =~= spec_u32_to_le_bytes(devices));
}

/// The room of descriptors in a message is what is left of it behind its header.
pub proof fn law_descriptors_lie_behind_the_header(message_bytes: usize, header_bytes: usize)
    ensures
        message_bytes <= header_bytes ==> descriptor_bytes(message_bytes, header_bytes) == 0,
        message_bytes > header_bytes ==> header_bytes + descriptor_bytes(message_bytes, header_bytes) == message_bytes,
{
}

proof fn lemma_held_in_sum(a: Seq<SetupStep>, b: Seq<SetupStep>, step: SetupStep)
    ensures
        (a + b).contains(step) <==> a.contains(step) || b.contains(step),
{
    let all = a + b;
    if a.contains(step) {
        let i = choose|i: int| 0 <= i < a.len() && a[i] == step;
        assert(all[i] == step);
    }
    if b.contains(step) {
        let i = choose|i: int| 0 <= i < b.len() && b[i] == step;
        assert(all[a.len() + i] == step);
    }
    if all.contains(step) {
        let i = choose|i: int| 0 <= i < all.len() && all[i] == step;
        if i < a.len() {
            assert(a[i] == step);
        } else {
            assert(b[i - a.len()] == step);
        }
    }
}

/// A child takes the steps that were asked for and no others; it always dies with its
/// parent, and the last it does is to keep its descriptors and to start the launcher.
pub proof fn law_children_take_the_steps_asked_for(setup: ChildSetup, step: SetupStep)
    ensures
        ({
            let steps = steps_of(setup);
            &&& steps.contains(step) <==> match step {
                SetupStep::OwnProcessGroup => !setup.session_created,
                SetupStep::TakeTerminal => setup.foreground_terminal,
                SetupStep::DieWithParent => true,
                SetupStep::FixedAddresses => setup.no_randomize_memory,
                SetupStep::PinToCores => setup.has_cores,
                SetupStep::NoHugePages => setup.no_huge_pages,
                SetupStep::NoCoreDumps => setup.no_coredump,
                SetupStep::LimitOpenFiles => setup.limits_open_files,
                SetupStep::KeepDescriptors => true,
                SetupStep::Exec => true,
            }
            &&& steps.len() >= 3
            &&& steps.last() is Exec
            &&& steps[steps.len() - 2] is KeepDescriptors
        }),
{
    let s1 = step_if(!setup.session_created, SetupStep::OwnProcessGroup);
    let s2 = step_if(setup.foreground_terminal, SetupStep::TakeTerminal);
    let s3 = seq![SetupStep::DieWithParent];
    let s4 = step_if(setup.no_randomize_memory, SetupStep::FixedAddresses);
    let s5 = step_if(setup.has_cores, SetupStep::PinToCores);
    let s6 = step_if(setup.no_huge_pages, SetupStep::NoHugePages);
    let s7 = step_if(setup.no_coredump, SetupStep::NoCoreDumps);
    let s8 = step_if(setup.limits_open_files, SetupStep::LimitOpenFiles);
    let s9 = seq![SetupStep::KeepDescriptors, SetupStep::Exec];
    lemma_held_in_sum(s1, s2, step);
    lemma_held_in_sum(s1 + s2, s3, step);
    lemma_held_in_sum(s1 + s2 + s3, s4, step);
    lemma_held_in_sum(s1 + s2 + s3 + s4, s5, step);
    lemma_held_in_sum(s1 + s2 + s3 + s4 + s5, s6, step);
    lemma_held_in_sum(s1 + s2 + s3 + s4 + s5 + s6, s7, step);
    lemma_held_in_sum(s1 + s2 + s3 + s4 + s5 + s6 + s7, s8, step);
    lemma_held_in_sum(s1 + s2 + s3 + s4 + s5 + s6 + s7 + s8, s9, step);
    lemma_step_if(!setup.session_created, SetupStep::OwnProcessGroup, step);
    lemma_step_if(setup.foreground_terminal, SetupStep::TakeTerminal, step);
    lemma_step_if(true, SetupStep::DieWithParent, step);
    lemma_step_if(setup.no_randomize_memory, SetupStep::FixedAddresses, step);
    lemma_step_if(setup.has_cores, SetupStep::PinToCores, step);
    lemma_step_if(setup.no_huge_pages, SetupStep::NoHugePages, step);
    lemma_step_if(setup.no_coredump, SetupStep::NoCoreDumps, step);
    lemma_step_if(setup.limits_open_files, SetupStep::LimitOpenFiles, step);
    assert(s9[0] is KeepDescriptors && s9[1] is Exec);
    assert(s9.contains(s9[0]) && s9.contains(s9[1]));
}

proof fn lemma_step_if(asked: bool, one: SetupStep, step: SetupStep)
    ensures
        step_if(asked, one).contains(step) <==> asked && step == one,
{
    if asked {
        assert(step_if(asked, one)[0] == one);
    }
}

} // verus!
