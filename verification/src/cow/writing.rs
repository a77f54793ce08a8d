//! The whole way of a change: what is asked in which order, from the arguments of
//! the call to its answer.

use crate::cow::open::BranchFault;
use crate::cow::paths;
use crate::cow::paths::{is_magic_fd_path, resolve_at_path};
use crate::cow::walk;
use crate::cow::walk::{WalkSeen, WalkStep};
use crate::cow::write::{
    check_fd_metadata, check_run, check_write, copy_fault_reply, cow_result, cow_write_paths, parse_cow_write,
    unlink_result, BranchFacts, CowWriteOp, PathArgument, PinnedFd, WriteCall, WriteFacts, WriteView,
};
use crate::cow::Reply;
use crate::path;
use crate::path::copy_bytes;
use crate::sys::{AT_EMPTY_PATH, AT_SYMLINK_NOFOLLOW, EFAULT, EINVAL, EIO, ENOENT, EPERM};
use vstd::prelude::*;

verus! {

/// What the branch says about copying a file up before it is changed.
#[derive(Debug)]
pub enum CopyLook {
    /// The branch does not claim the change.
    Unclaimed,
    /// Nothing has to be copied.
    Ready,
    /// The file with this path below the root of the branch has to be copied.
    NeedsCopy { rel: Vec<u8>, file_size: u64 },
    Refused(BranchFault),
}

/// What was seen right before a change is made.
#[derive(Clone, Copy, Debug)]
pub struct RunFacts {
    /// Whether the parent of a new entry may hold it.
    pub parent: Result<(), i32>,
    pub first_matches: bool,
    pub second_matches: bool,
}

/// How a change came out.
#[derive(Clone, Copy, Debug)]
pub enum RunOutcome {
    Removed(Result<bool, i32>),
    Changed(Result<bool, BranchFault>),
    /// What the branch answers to a hard link.
    Linked(Reply),
}

/// What was learned so far of a change; each part is there once it was asked for.
pub struct WriteSeen {
    pub first: WalkSeen,
    pub second: WalkSeen,
    /// The descriptor whose metadata is to change.
    pub pinned: Option<Result<PinnedFd, i32>>,
    /// The branch, as far as descriptors go; nothing without a branch.
    pub branch: Option<Option<BranchFacts>>,
    /// What a new symbolic link holds; nothing where it cannot be read.
    pub target: Option<Option<Vec<u8>>>,
    /// The file creation mask of the task; nothing where it cannot be read.
    pub umask: Option<Option<u32>>,
    /// Where the paths lead in the branch, or the error of the first that leads
    /// nowhere.
    pub resolved: Option<Result<Vec<Vec<u8>>, i32>>,
    pub facts: Option<WriteFacts>,
    pub copy: Option<CopyLook>,
    pub copied: Option<bool>,
    /// What was seen before the change is made; nothing without a branch.
    pub run: Option<Option<RunFacts>>,
    pub outcome: Option<RunOutcome>,
}

/// What is asked next.
#[verifier::ext_equal]
pub enum WriteAsk {
    First(walk::WalkAsk),
    Second(walk::WalkAsk),
    PinDescriptor { fd: i32 },
    ReadBranch,
    ReadTarget { address: u64 },
    ReadUmask,
    Resolve { op: WriteView },
    Look { op: WriteView },
    PlanCopy { claimed: Seq<u8>, path: Seq<u8> },
    Copy { rel: Seq<u8> },
    GiveBack { bytes: u64, reply: Reply },
    LookAgain { op: WriteView },
    Run { op: WriteView },
}

/// What is done next.
pub enum WriteDo {
    /// A step for the first path, or the answer.
    First(WalkStep),
    /// A step for the second path.
    Second(WalkStep),
    /// Pin a descriptor of the task.
    PinDescriptor { fd: i32 },
    ReadBranch,
    /// Read what a symbolic link is to hold.
    ReadTarget { address: u64 },
    ReadUmask,
    /// Ask the branch where each path leads.
    Resolve { op: CowWriteOp },
    /// Ask the branch about the paths.
    Look { op: CowWriteOp },
    /// Ask the branch, where it claims a path, for the plan to copy another up.
    PlanCopy { claimed: Vec<u8>, path: Vec<u8> },
    /// Copy the file with this path below the root of the branch to the upper layer.
    Copy { rel: Vec<u8> },
    /// Give bytes back to the quota, and answer.
    GiveBack { bytes: u64, reply: Reply },
    /// Ask the branch once more, and keep it locked.
    LookAgain { op: CowWriteOp },
    /// Let the branch make the change.
    Run { op: CowWriteOp },
}

impl View for WriteDo {
    type V = WriteAsk;

    open spec fn view(&self) -> WriteAsk {
        match self {
            WriteDo::First(step) => WriteAsk::First(step@),
            WriteDo::Second(step) => WriteAsk::Second(step@),
            WriteDo::PinDescriptor { fd } => WriteAsk::PinDescriptor { fd: *fd },
            WriteDo::ReadBranch => WriteAsk::ReadBranch,
            WriteDo::ReadTarget { address } => WriteAsk::ReadTarget { address: *address },
            WriteDo::ReadUmask => WriteAsk::ReadUmask,
            WriteDo::Resolve { op } => WriteAsk::Resolve { op: op@ },
            WriteDo::Look { op } => WriteAsk::Look { op: op@ },
            WriteDo::PlanCopy { claimed, path } => WriteAsk::PlanCopy { claimed: claimed@, path: path@ },
            WriteDo::Copy { rel } => WriteAsk::Copy { rel: rel@ },
            WriteDo::GiveBack { bytes, reply } => WriteAsk::GiveBack { bytes: *bytes, reply: *reply },
            WriteDo::LookAgain { op } => WriteAsk::LookAgain { op: op@ },
            WriteDo::Run { op } => WriteAsk::Run { op: op@ },
        }
    }
}

/// The call is answered.
pub open spec fn answer(reply: Reply) -> WriteAsk {
    WriteAsk::First(walk::WalkAsk::Answer(reply))
}

/// Whether a change of permissions may go on to its path. One that names no path
/// changes a descriptor, which a branch cannot stand in for.
pub open spec fn descriptor_checked(call: WriteCall, args: Seq<u64>, seen: WriteSeen) -> Result<(), WriteAsk> {
    let flags = args[3] as i32;
    if !(call is FchmodAt2) {
        Ok(())
    } else if flags & !((AT_SYMLINK_NOFOLLOW | AT_EMPTY_PATH) as i32) != 0 {
        Err(answer(Reply::Errno(EINVAL)))
    } else {
        match seen.first.written {
            None => Err(WriteAsk::First(walk::WalkAsk::ReadPath { address: args[1] })),
            Some(None) => Err(answer(Reply::Errno(EFAULT))),
            Some(Some(written)) => if written@.len() > 0 {
                Ok(())
            } else if flags & (AT_EMPTY_PATH as i32) == 0 {
                Err(answer(Reply::Errno(ENOENT)))
            } else {
                match (seen.pinned, seen.branch) {
                    (None, _) => Err(WriteAsk::PinDescriptor { fd: args[0] as i32 }),
                    (Some(_), None) => Err(WriteAsk::ReadBranch),
                    (Some(pinned), Some(branch)) => Err(answer(crate::cow::write::fd_metadata_reply(pinned, branch))),
                }
            },
        }
    }
}

/// The paths that a task wrote.
#[verifier::ext_equal]
pub struct Written {
    pub first: Seq<u8>,
    pub second: Option<Seq<u8>>,
}

/// The paths that the task wrote.
pub open spec fn written_paths(call: WriteCall, args: Seq<u64>, seen: WriteSeen) -> Result<Written, WriteAsk> {
    let (first, second) = crate::cow::write::path_arguments(call, args);
    match walk::written_path(first.address, seen.first) {
        Err(ask) => Err(WriteAsk::First(ask)),
        Ok(one) => match second {
            None => Ok(Written { first: one, second: None }),
            Some(other) => match walk::written_path(other.address, seen.second) {
                Err(ask) => Err(WriteAsk::Second(ask)),
                Ok(two) => Ok(Written { first: one, second: Some(two) }),
            },
        },
    }
}

/// Whether a path may be a descriptor of a snapshot-backed branch, which cannot be
/// changed.
pub open spec fn magic_checked(written: Seq<u8>, seen: WriteSeen) -> Result<(), WriteAsk> {
    if !paths::may_be_magic(written) {
        Ok(())
    } else {
        match seen.branch {
            None => Err(WriteAsk::ReadBranch),
            Some(Some(facts)) if facts.snapshot_backed => Err(answer(Reply::Errno(EPERM))),
            Some(_) => Ok(()),
        }
    }
}

/// Whether the first path may be followed.
pub open spec fn first_checked(argument: PathArgument, written: Seq<u8>, seen: WriteSeen) -> Result<(), WriteAsk> {
    match magic_checked(written, seen) {
        Err(ask) => Err(ask),
        Ok(_) => match walk::base_checked(argument.dirfd, written, seen.first) {
            Err(ask) => Err(WriteAsk::First(ask)),
            Ok(_) => Ok(()),
        },
    }
}

/// Whether the second path may be followed.
pub open spec fn second_checked(argument: PathArgument, written: Seq<u8>, seen: WriteSeen) -> Result<(), WriteAsk> {
    match magic_checked(written, seen) {
        Err(ask) => Err(ask),
        Ok(_) => match walk::base_checked(argument.dirfd, written, seen.second) {
            Err(ask) => Err(WriteAsk::Second(ask)),
            Ok(_) => Ok(()),
        },
    }
}

/// Where the second path leads, where there is one.
pub open spec fn second_place(
    second: Option<PathArgument>,
    written: Option<Seq<u8>>,
    seen: WalkSeen,
) -> Result<Option<Seq<u8>>, WriteAsk> {
    match (second, written) {
        (Some(argument), Some(two)) => match walk::found_base(argument.dirfd, two, seen) {
            Err(ask) => Err(WriteAsk::Second(ask)),
            Ok(found) => Ok(Some(paths::resolved(two, found))),
        },
        _ => Ok(None),
    }
}

/// Where the paths of a change lead by their names alone.
pub open spec fn plain_places(call: WriteCall, args: Seq<u64>, seen: WriteSeen) -> Result<Written, WriteAsk> {
    let (first, second) = crate::cow::write::path_arguments(call, args);
    match written_paths(call, args, seen) {
        Err(ask) => Err(ask),
        Ok(written) => match first_checked(first, written.first, seen) {
            Err(ask) => Err(ask),
            Ok(_) => match (if second is Some {
                second_checked(second->0, written.second->0, seen)
            } else {
                Ok(())
            }) {
                Err(ask) => Err(ask),
                Ok(_) => match walk::found_base(first.dirfd, written.first, seen.first) {
                    Err(ask) => Err(WriteAsk::First(ask)),
                    Ok(found) => match second_place(second, written.second, seen.second) {
                        Err(ask) => Err(ask),
                        Ok(two) => Ok(Written { first: paths::resolved(written.first, found), second: two }),
                    },
                },
            },
        },
    }
}

/// What a new symbolic link holds.
pub open spec fn link_target(call: WriteCall, args: Seq<u64>, seen: WriteSeen) -> Result<Option<Seq<u8>>, WriteAsk> {
    if !(call is Symlink || call is SymlinkAt) {
        Ok(None)
    } else {
        match seen.target {
            None => Err(WriteAsk::ReadTarget { address: args[0] }),
            Some(target) => Ok(paths::found_bytes(target)),
        }
    }
}

/// The mask that a new directory is made with.
pub open spec fn creation_mask(call: WriteCall, seen: WriteSeen) -> Result<Option<u32>, WriteAsk> {
    if !(call is Mkdir || call is MkdirAt) {
        Ok(None)
    } else {
        match seen.umask {
            None => Err(WriteAsk::ReadUmask),
            Some(umask) => Ok(umask),
        }
    }
}

/// The change that a call asks for.
pub open spec fn asked_change(call: WriteCall, args: Seq<u64>, seen: WriteSeen) -> Result<WriteView, WriteAsk> {
    match descriptor_checked(call, args, seen) {
        Err(ask) => Err(ask),
        Ok(_) => match plain_places(call, args, seen) {
            Err(ask) => Err(ask),
            Ok(places) => match link_target(call, args, seen) {
                Err(ask) => Err(ask),
                Ok(target) => match creation_mask(call, seen) {
                    Err(ask) => Err(ask),
                    Ok(umask) => match crate::cow::write::op_of(
                        crate::cow::write::masked_kind(crate::cow::write::kind_of(call, args), umask),
                        places.first,
                        places.second,
                        target,
                    ) {
                        None => Err(answer(Reply::Continue)),
                        Some(op) => Ok(op),
                    },
                },
            },
        },
    }
}

/// The change with the paths to which the branch leads it.
pub open spec fn led_change(op: WriteView, seen: WriteSeen) -> Result<WriteView, WriteAsk> {
    match seen.first.layers {
        None => Err(WriteAsk::First(walk::WalkAsk::ReadLayers)),
        Some(None) => Err(answer(Reply::Continue)),
        Some(Some(layers)) => {
            let mapped = WriteView { paths: crate::cow::write::remapped(layers, op.paths), ..op };
            match seen.resolved {
                Some(Err(errno)) => Err(answer(Reply::Errno(errno))),
                Some(Ok(resolved)) if resolved@.len() == op.paths.len() => Ok(
                    WriteView { paths: path::byte_views(resolved@), ..op },
                ),
                _ => Err(WriteAsk::Resolve { op: mapped }),
            }
        },
    }
}

/// Whether the branch allows a change.
pub open spec fn change_allowed(op: WriteView, seen: WriteSeen) -> Result<(), WriteAsk> {
    match seen.facts {
        None => Err(WriteAsk::Look { op }),
        Some(facts) => match crate::cow::write::write_reply(op, facts) {
            Some(reply) => Err(answer(reply)),
            None => Ok(()),
        },
    }
}

/// Whether the file that a change works on is in the upper layer.
pub open spec fn copy_done(op: WriteView, seen: WriteSeen) -> Result<(), WriteAsk> {
    match crate::cow::write::copy_of(op) {
        None => Ok(()),
        Some((claimed, copied)) => match seen.copy {
            None => Err(WriteAsk::PlanCopy { claimed, path: copied }),
            Some(CopyLook::Unclaimed) | Some(CopyLook::Ready) => Ok(()),
            Some(CopyLook::Refused(fault)) => Err(
                answer(Reply::Errno(if fault is QuotaExceeded { crate::sys::ENOSPC } else { EIO })),
            ),
            Some(CopyLook::NeedsCopy { rel, file_size }) => match seen.copied {
                None => Err(WriteAsk::Copy { rel: rel@ }),
                Some(true) => Ok(()),
                Some(false) => Err(WriteAsk::GiveBack { bytes: file_size, reply: Reply::Errno(EIO) }),
            },
        },
    }
}

/// Whether the change can be made now.
pub open spec fn run_ready(op: WriteView, seen: WriteSeen) -> Result<(), WriteAsk> {
    match seen.run {
        None => Err(WriteAsk::LookAgain { op }),
        Some(None) => Err(answer(Reply::Continue)),
        Some(Some(facts)) => match crate::cow::write::run_reply(op, true, facts.parent, facts.first_matches, facts.second_matches) {
            Some(reply) => Err(answer(reply)),
            None => Ok(()),
        },
    }
}

/// The answer to a change that was made.
pub open spec fn outcome_reply(outcome: RunOutcome) -> Reply {
    match outcome {
        RunOutcome::Removed(result) => crate::cow::write::removal_reply(result),
        RunOutcome::Changed(result) => crate::cow::write::change_reply(result),
        RunOutcome::Linked(reply) => reply,
    }
}

/// What follows once the change is known.
pub open spec fn changed(op: WriteView, seen: WriteSeen) -> WriteAsk {
    match change_allowed(op, seen) {
        Err(ask) => ask,
        Ok(_) => match copy_done(op, seen) {
            Err(ask) => ask,
            Ok(_) => match run_ready(op, seen) {
                Err(ask) => ask,
                Ok(_) => match seen.outcome {
                    None => WriteAsk::Run { op },
                    Some(outcome) => answer(outcome_reply(outcome)),
                },
            },
        },
    }
}

/// What is asked next of a change.
pub open spec fn write_ask(call: WriteCall, args: Seq<u64>, seen: WriteSeen) -> WriteAsk {
    match asked_change(call, args, seen) {
        Err(ask) => ask,
        Ok(asked) => match led_change(asked, seen) {
            Err(ask) => ask,
            Ok(op) => changed(op, seen),
        },
    }
}

/// Whether a check is the one that is meant.
pub open spec fn tells(result: Result<(), WriteDo>, meant: Result<(), WriteAsk>) -> bool {
    match (result, meant) {
        (Ok(_), Ok(_)) => true,
        (Err(step), Err(ask)) => step@ == ask,
        _ => false,
    }
}

fn reply(told: Reply) -> (step: WriteDo)
    ensures
        step@ == answer(told),
{
    WriteDo::First(WalkStep::Answer(told))
}

fn check_descriptor(call: WriteCall, args: &[u64; 6], seen: &WriteSeen) -> (result: Result<(), WriteDo>)
    ensures
        tells(result, descriptor_checked(call, args@, *seen)),
{
    if call != WriteCall::FchmodAt2 {
        return Ok(());
    }
    let flags: i32 = args[3] as i32;
    let supported: i32 = (AT_SYMLINK_NOFOLLOW | AT_EMPTY_PATH) as i32;
    if flags & !supported != 0 {
        return Err(reply(Reply::Errno(EINVAL)));
    }
    match &seen.first.written {
        None => Err(WriteDo::First(WalkStep::ReadPath { address: args[1] })),
        Some(None) => Err(reply(Reply::Errno(EFAULT))),
        Some(Some(written)) => {
            if written.len() > 0 {
                return Ok(());
            }
            if flags & (AT_EMPTY_PATH as i32) == 0 {
                return Err(reply(Reply::Errno(ENOENT)));
            }
            match (&seen.pinned, &seen.branch) {
                (None, _) => Err(WriteDo::PinDescriptor { fd: args[0] as i32 }),
                (Some(_), None) => Err(WriteDo::ReadBranch),
                (Some(pinned), Some(branch)) => Err(reply(check_fd_metadata(pinned, branch))),
            }
        },
    }
}

fn check_magic(written: &[u8], seen: &WriteSeen) -> (result: Result<(), WriteDo>)
    ensures
        tells(result, magic_checked(written@, *seen)),
{
    if !is_magic_fd_path(written) {
        return Ok(());
    }
    match &seen.branch {
        None => Err(WriteDo::ReadBranch),
        Some(None) => Ok(()),
        Some(Some(facts)) => {
            if facts.snapshot_backed {
                Err(reply(Reply::Errno(EPERM)))
            } else {
                Ok(())
            }
        },
    }
}

/// Whether places are those that are meant.
pub open spec fn tells_places(
    result: Result<(Vec<u8>, Option<Vec<u8>>), WriteDo>,
    meant: Result<Written, WriteAsk>,
) -> bool {
    match (result, meant) {
        (Ok((first, second)), Ok(written)) => first@ == written.first && paths::found_bytes(second) == written.second,
        (Err(step), Err(ask)) => step@ == ask,
        _ => false,
    }
}

fn find_places(call: WriteCall, args: &[u64; 6], seen: &WriteSeen) -> (result: Result<
    (Vec<u8>, Option<Vec<u8>>),
    WriteDo,
>)
    ensures
        tells_places(result, plain_places(call, args@, *seen)),
{
    let (first, second) = cow_write_paths(call, args);
    let one = match seen.first.read_written(first.address) {
        Ok(written) => written,
        Err(step) => {
            return Err(WriteDo::First(step));
        },
    };
    let two = match second {
        None => None,
        Some(other) => match seen.second.read_written(other.address) {
            Ok(written) => Some(written),
            Err(step) => {
                return Err(WriteDo::Second(step));
            },
        },
    };
    match check_magic(one.as_slice(), seen) {
        Ok(_) => {},
        Err(step) => {
            return Err(step);
        },
    }
    match seen.first.check_base(first.dirfd, one.as_slice()) {
        Ok(_) => {},
        Err(step) => {
            return Err(WriteDo::First(step));
        },
    }
    match (&two, second) {
        (Some(written), Some(other)) => {
            match check_magic(written.as_slice(), seen) {
                Ok(_) => {},
                Err(step) => {
                    return Err(step);
                },
            }
            match seen.second.check_base(other.dirfd, written.as_slice()) {
                Ok(_) => {},
                Err(step) => {
                    return Err(WriteDo::Second(step));
                },
            }
        },
        _ => {},
    }
    let place = match seen.first.find_base(first.dirfd, one.as_slice()) {
        Ok(found) => resolve_at_path(one.as_slice(), &found),
        Err(step) => {
            return Err(WriteDo::First(step));
        },
    };
    match (two, second) {
        (Some(written), Some(other)) => match seen.second.find_base(other.dirfd, written.as_slice()) {
            Ok(found) => Ok((place, Some(resolve_at_path(written.as_slice(), &found)))),
            Err(step) => Err(WriteDo::Second(step)),
        },
        _ => Ok((place, None)),
    }
}

fn find_target(call: WriteCall, args: &[u64; 6], seen: &WriteSeen) -> (result: Result<Option<Vec<u8>>, WriteDo>)
    ensures
        match (result, link_target(call, args@, *seen)) {
            (Ok(found), Ok(target)) => paths::found_bytes(found) == target,
            (Err(step), Err(ask)) => step@ == ask,
            _ => false,
        },
{
    match call {
        WriteCall::Symlink | WriteCall::SymlinkAt => match &seen.target {
            None => Err(WriteDo::ReadTarget { address: args[0] }),
            Some(None) => Ok(None),
            Some(Some(target)) => Ok(Some(copy_bytes(target.as_slice()))),
        },
        _ => Ok(None),
    }
}

fn find_mask(call: WriteCall, seen: &WriteSeen) -> (result: Result<Option<u32>, WriteDo>)
    ensures
        match (result, creation_mask(call, *seen)) {
            (Ok(found), Ok(umask)) => found == umask,
            (Err(step), Err(ask)) => step@ == ask,
            _ => false,
        },
{
    match call {
        WriteCall::Mkdir | WriteCall::MkdirAt => match seen.umask {
            None => Err(WriteDo::ReadUmask),
            Some(umask) => Ok(umask),
        },
        _ => Ok(None),
    }
}

/// Whether a change is the one that is meant.
pub open spec fn tells_change(result: Result<CowWriteOp, WriteDo>, meant: Result<WriteView, WriteAsk>) -> bool {
    match (result, meant) {
        (Ok(op), Ok(view)) => op@ == view,
        (Err(step), Err(ask)) => step@ == ask,
        _ => false,
    }
}

fn find_change(call: WriteCall, args: &[u64; 6], seen: &WriteSeen) -> (result: Result<CowWriteOp, WriteDo>)
    ensures
        tells_change(result, asked_change(call, args@, *seen)),
{
    match check_descriptor(call, args, seen) {
        Ok(_) => {},
        Err(step) => {
            return Err(step);
        },
    }
    let (first, second) = match find_places(call, args, seen) {
        Ok(places) => places,
        Err(step) => {
            return Err(step);
        },
    };
    let target = match find_target(call, args, seen) {
        Ok(target) => target,
        Err(step) => {
            return Err(step);
        },
    };
    let umask = match find_mask(call, seen) {
        Ok(umask) => umask,
        Err(step) => {
            return Err(step);
        },
    };
    match parse_cow_write(call, args, first, second, target, umask) {
        Some(op) => Ok(op),
        None => Err(reply(Reply::Continue)),
    }
}

fn lead_change(asked: CowWriteOp, seen: &WriteSeen) -> (result: Result<CowWriteOp, WriteDo>)
    ensures
        tells_change(result, led_change(asked@, *seen)),
{
    let layers = match &seen.first.layers {
        None => {
            return Err(WriteDo::First(WalkStep::ReadLayers));
        },
        Some(None) => {
            return Err(reply(Reply::Continue));
        },
        Some(Some(layers)) => layers,
    };
    let count = asked.paths().len();
    let mapped = asked.remap_upper_paths(layers);
    match &seen.resolved {
        None => Err(WriteDo::Resolve { op: mapped }),
        Some(Err(errno)) => Err(reply(Reply::Errno(*errno))),
        Some(Ok(resolved)) => {
            if resolved.len() != count {
                return Err(WriteDo::Resolve { op: mapped });
            }
            Ok(mapped.with_paths(resolved))
        },
    }
}

fn check_copy(op: &CowWriteOp, seen: &WriteSeen) -> (result: Result<(), WriteDo>)
    ensures
        tells(result, copy_done(op@, *seen)),
{
    let (claimed, path) = match op.copy_rel() {
        None => {
            return Ok(());
        },
        Some(named) => named,
    };
    match &seen.copy {
        None => Err(WriteDo::PlanCopy { claimed, path }),
        Some(CopyLook::Unclaimed) | Some(CopyLook::Ready) => Ok(()),
        Some(CopyLook::Refused(fault)) => Err(reply(copy_fault_reply(*fault))),
        Some(CopyLook::NeedsCopy { rel, file_size }) => match seen.copied {
            None => Err(WriteDo::Copy { rel: copy_bytes(rel.as_slice()) }),
            Some(true) => Ok(()),
            Some(false) => Err(WriteDo::GiveBack { bytes: *file_size, reply: Reply::Errno(EIO) }),
        },
    }
}

/// Tells what is done next of a change, by what was learned so far.
pub fn handle_cow_write(call: WriteCall, args: &[u64; 6], seen: &WriteSeen) -> (step: WriteDo)
    ensures
        step@ == write_ask(call, args@, *seen),
{
    let asked = match find_change(call, args, seen) {
        Ok(asked) => asked,
        Err(step) => {
            return step;
        },
    };
    let op = match lead_change(asked, seen) {
        Ok(op) => op,
        Err(step) => {
            return step;
        },
    };
    match &seen.facts {
        None => {
            return WriteDo::Look { op };
        },
        Some(facts) => match check_write(&op, facts) {
            Some(told) => {
                return reply(told);
            },
            None => {},
        },
    }
    match check_copy(&op, seen) {
        Ok(_) => {},
        Err(step) => {
            return step;
        },
    }
    match seen.run {
        None => {
            return WriteDo::LookAgain { op };
        },
        Some(None) => {
            return reply(Reply::Continue);
        },
        Some(Some(facts)) => match check_run(&op, true, facts.parent, facts.first_matches, facts.second_matches) {
            Some(told) => {
                return reply(told);
            },
            None => {},
        },
    }
    match seen.outcome {
        None => WriteDo::Run { op },
        Some(RunOutcome::Removed(result)) => reply(unlink_result(result)),
        Some(RunOutcome::Changed(result)) => reply(cow_result(result)),
        Some(RunOutcome::Linked(told)) => reply(told),
    }
}

/// A descriptor of a file in the lower of a snapshot-backed branch keeps its
/// permissions, also where a call names it by an empty path.
pub proof fn law_snapshot_lowers_keep_their_permissions(
    args: Seq<u64>,
    seen: WriteSeen,
    written: Vec<u8>,
    actual: Vec<u8>,
    facts: BranchFacts,
)
    requires
        facts.snapshot_backed,
        path::starts_with(path::parts(actual@), path::parts(facts.layers.workdir@)),
        seen.first.written == Some(Some(written)),
        written@.len() == 0,
        seen.pinned == Some(Ok::<PinnedFd, i32>(PinnedFd { actual: Some(actual) })),
        seen.branch == Some(Some(facts)),
    ensures
        write_ask(WriteCall::FchmodAt2, args, seen) matches WriteAsk::First(walk::WalkAsk::Answer(Reply::Errno(_))),
{
}

/// The change that is made, where nothing ends the call before.
pub open spec fn running_change(call: WriteCall, args: Seq<u64>, seen: WriteSeen) -> Option<WriteView> {
    match asked_change(call, args, seen) {
        Err(_) => None,
        Ok(asked) => match led_change(asked, seen) {
            Err(_) => None,
            Ok(op) => if change_allowed(op, seen) is Ok && copy_done(op, seen) is Ok && run_ready(op, seen) is Ok {
                Some(op)
            } else {
                None
            },
        },
    }
}

/// A change is made only where the branch claims it, allows it, and has in its
/// upper layer the file that the change works on.
pub proof fn law_changes_are_made_in_the_upper(call: WriteCall, args: Seq<u64>, seen: WriteSeen, op: WriteView)
    requires
        write_ask(call, args, seen) == (WriteAsk::Run { op }),
    ensures
        running_change(call, args, seen) == Some(op),
        seen.run matches Some(Some(facts)) && facts.first_matches,
        seen.facts matches Some(facts) && crate::cow::write::first_denied(facts.paths@) is None,
        crate::cow::write::copy_of(op) is Some ==> seen.copy is Some && (seen.copy->0 is NeedsCopy ==> seen.copied
            == Some(true)),
{
}

/// Once a change was handed to the branch, no answer hands it to the kernel, unless
/// the branch itself does so for a hard link.
pub proof fn law_made_changes_stay_in_the_branch(call: WriteCall, args: Seq<u64>, seen: WriteSeen)
    requires
        running_change(call, args, seen) is Some,
        !(seen.outcome matches Some(RunOutcome::Linked(Reply::Continue))),
    ensures
        write_ask(call, args, seen) != answer(Reply::Continue),
{
}

} // verus!
