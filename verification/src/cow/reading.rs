//! The whole way of a look: what is asked in which order, from the arguments of
//! the call to its answer.

use crate::byte_order::ByteOrder;
use crate::cow::open::BranchFault;
use crate::cow::paths;
use crate::cow::paths::LayerPath;
use crate::cow::read;
use crate::cow::read::{
    access_leaf_bits, check_cache, choose_stat_target, keep_records, parse_access, parse_stat, patch_mode,
    patch_statx_mode, plan_records, rewrite_to_fd, settle_getdents, show_cwd, AccessCall, CacheStep, DirectoryCache,
    DirectoryFacts, NameLook, RecordPlan, StatCall, StatTarget,
};
use crate::cow::walk;
use crate::cow::walk::{WalkSeen, WalkStep};
use crate::cow::write::{check_fd_metadata, BranchFacts, PinnedFd};
use crate::cow::Reply;
use crate::path;
use crate::path::{copy_bytes, path_starts_with};
use crate::sys::{
    AT_EMPTY_PATH, AT_FDCWD, AT_SYMLINK_NOFOLLOW, EACCES, EBADF, EFAULT, EINVAL, EIO, ENOENT, ENOSPC, ENOTDIR, ERANGE,
    OWNER_EXECUTE, S_IFDIR, S_IFMT, W_OK,
};
use crate::text;
use vstd::prelude::*;

verus! {

/// What a branch says of an inode that is held open.
#[derive(Clone, Copy, Debug, PartialEq, Eq, Structural)]
pub struct HandleFacts {
    /// Whether it lies in a layer of the branch.
    pub in_layer: bool,
    /// The mode that the branch keeps for it.
    pub logical_mode: Option<u32>,
}

/// What a branch says of a path.
pub struct BranchLook {
    /// Where the path lies; nothing where it is deleted or missing.
    pub actual: Option<Vec<u8>>,
    /// The mode that the branch keeps for it.
    pub logical_mode: Option<u32>,
}

/// What was learned so far of a look; each part is there once it was asked for.
pub struct ReadSeen {
    pub walk: WalkSeen,
    /// Whether the branch has a directory there.
    pub is_directory: Option<bool>,
    pub exists: Option<bool>,
    pub pinned: Option<Result<PinnedFd, i32>>,
    /// The branch, as far as descriptors go; nothing without a branch.
    pub branch: Option<Option<BranchFacts>>,
    /// What the branch says of a descriptor; nothing without a branch.
    pub handle: Option<Option<HandleFacts>>,
    pub look: Option<BranchLook>,
    /// The file mode, or the error of reading it.
    pub mode: Option<Result<u32, i32>>,
    /// The extended metadata, or the error of reading it.
    pub metadata: Option<Result<Vec<u8>, i32>>,
    /// What a symbolic link holds; nothing where there is none.
    pub symlink: Option<Option<Vec<u8>>>,
    /// The path below the root of the branch, where it has one there.
    pub rel: Option<Option<Vec<u8>>>,
    /// Whether the kernel has the directory under its own name.
    pub kernel_knows: Option<bool>,
    pub upper_has: Option<bool>,
    pub opened: Option<bool>,
    /// The descriptor that the task got; nothing where it got none.
    pub injected: Option<Option<u32>>,
    /// Where the path leads in the branch.
    pub led: Option<Result<Vec<u8>, i32>>,
    /// The copy in the upper layer.
    pub upper: Option<Result<Option<Vec<u8>>, BranchFault>>,
    /// The times as the task wrote them; nothing where they cannot be read.
    pub times: Option<Option<Vec<u8>>>,
    pub stamped: Option<Result<(), i32>>,
    /// Whether the memory of the task was written.
    pub is_written: Option<bool>,
}

/// What is asked next.
#[verifier::ext_equal]
pub enum ReadAsk {
    Walk(walk::WalkAsk),
    LookAtKind { path: Seq<u8>, follow: bool },
    LookForPath { path: Seq<u8> },
    PinCwd,
    PinDescriptor { fd: i32 },
    ReadBranch,
    LookAtHandle { actual: Seq<u8> },
    Look { path: Seq<u8>, follow: bool },
    StatHandle,
    StatxHandle { flags: i32, mask: u32 },
    StatAt { in_upper: bool, rel: Seq<u8>, follow: bool },
    StatxAt { in_upper: bool, rel: Seq<u8>, flags: i32, mask: u32 },
    WriteMode { address: u64, mode: u32 },
    WriteBytes { address: u64, bytes: Seq<u8> },
    ReadSymlink { path: Seq<u8> },
    FindRel { path: Seq<u8> },
    LookForDirectory { path: Seq<u8> },
    LookInUpper { rel: Seq<u8> },
    OpenFile { in_upper: bool, rel: Seq<u8> },
    OpenDirectory { rel: Seq<u8> },
    Inject { closes_on_exec: bool },
    RewriteExec { fd: u32, path: u64, argv: u64, envp: u64 },
    RewritePath { address: u64, bytes: Seq<u8> },
    Remember { cwd: Seq<u8> },
    Forget,
    Lead { path: Seq<u8>, follow: bool },
    CopyUp { path: Seq<u8> },
    ReadTimes { address: u64, size: int },
    Stamp { in_upper: bool, rel: Seq<u8>, times: Option<Seq<u8>>, follow: bool },
}

/// What is done next.
pub enum ReadDo {
    Walk(WalkStep),
    /// Ask the branch whether it has a directory there.
    LookAtKind { path: Vec<u8>, follow: bool },
    /// Tell whether a path is there, for the kernel or for the branch.
    LookForPath { path: Vec<u8> },
    /// Pin the working directory of the task.
    PinCwd,
    /// Pin a descriptor of the task.
    PinDescriptor { fd: i32 },
    ReadBranch,
    /// Ask the branch about an inode that is held open.
    LookAtHandle { actual: Vec<u8> },
    /// Ask the branch where a path lies and which mode it keeps.
    Look { path: Vec<u8>, follow: bool },
    /// Read the metadata of the pinned descriptor.
    StatHandle,
    /// Read the extended metadata of the pinned descriptor, with these flags and the
    /// mask of what is asked for.
    StatxHandle { flags: i32, mask: u32 },
    /// Read the metadata of a file inside a layer.
    StatAt { in_upper: bool, rel: Vec<u8>, follow: bool },
    /// Read the extended metadata of a file inside a layer.
    StatxAt { in_upper: bool, rel: Vec<u8>, flags: i32, mask: u32 },
    /// Write the metadata that was read, with this mode, to the memory of the task.
    WriteMode { address: u64, mode: u32 },
    /// Write bytes to the memory of the task.
    WriteBytes { address: u64, bytes: Vec<u8> },
    /// Ask the branch what a symbolic link holds.
    ReadSymlink { path: Vec<u8> },
    /// Ask the branch for the path below its root.
    FindRel { path: Vec<u8> },
    /// Tell whether the kernel has a directory there.
    LookForDirectory { path: Vec<u8> },
    /// Tell whether the upper layer has a directory there.
    LookInUpper { rel: Vec<u8> },
    /// Open a file inside a layer for reading.
    OpenFile { in_upper: bool, rel: Vec<u8> },
    /// Open a directory of the upper layer.
    OpenDirectory { rel: Vec<u8> },
    /// Give the descriptor to the task.
    Inject { closes_on_exec: bool },
    /// Make the call execute a descriptor: its path is written over, and the arguments
    /// that share the memory of the path are moved away.
    RewriteExec { fd: u32, path: u64, argv: u64, envp: u64 },
    /// Write over the path of the call.
    RewritePath { address: u64, bytes: Vec<u8> },
    /// Remember the directory that the task is led into, and let the kernel run
    /// the call.
    Remember { cwd: Vec<u8> },
    /// Forget the directory that the task was led into, and let the kernel run the
    /// call.
    Forget,
    /// Ask the branch where a path leads.
    Lead { path: Vec<u8>, follow: bool },
    /// Ask the branch for the copy in the upper layer.
    CopyUp { path: Vec<u8> },
    /// Read the two times that the task wrote.
    ReadTimes { address: u64, size: usize },
    /// Set the times of a file inside a layer, to the present where none are told.
    Stamp { in_upper: bool, rel: Vec<u8>, times: Option<Vec<u8>>, follow: bool },
}

impl View for ReadDo {
    type V = ReadAsk;

    open spec fn view(&self) -> ReadAsk {
        match self {
            ReadDo::Walk(step) => ReadAsk::Walk(step@),
            ReadDo::LookAtKind { path, follow } => ReadAsk::LookAtKind { path: path@, follow: *follow },
            ReadDo::LookForPath { path } => ReadAsk::LookForPath { path: path@ },
            ReadDo::PinCwd => ReadAsk::PinCwd,
            ReadDo::PinDescriptor { fd } => ReadAsk::PinDescriptor { fd: *fd },
            ReadDo::ReadBranch => ReadAsk::ReadBranch,
            ReadDo::LookAtHandle { actual } => ReadAsk::LookAtHandle { actual: actual@ },
            ReadDo::Look { path, follow } => ReadAsk::Look { path: path@, follow: *follow },
            ReadDo::StatHandle => ReadAsk::StatHandle,
            ReadDo::StatxHandle { flags, mask } => ReadAsk::StatxHandle { flags: *flags, mask: *mask },
            ReadDo::StatAt { in_upper, rel, follow } => ReadAsk::StatAt {
                in_upper: *in_upper,
                rel: rel@,
                follow: *follow,
            },
            ReadDo::StatxAt { in_upper, rel, flags, mask } => ReadAsk::StatxAt {
                in_upper: *in_upper,
                rel: rel@,
                flags: *flags,
                mask: *mask,
            },
            ReadDo::WriteMode { address, mode } => ReadAsk::WriteMode { address: *address, mode: *mode },
            ReadDo::WriteBytes { address, bytes } => ReadAsk::WriteBytes { address: *address, bytes: bytes@ },
            ReadDo::ReadSymlink { path } => ReadAsk::ReadSymlink { path: path@ },
            ReadDo::FindRel { path } => ReadAsk::FindRel { path: path@ },
            ReadDo::LookForDirectory { path } => ReadAsk::LookForDirectory { path: path@ },
            ReadDo::LookInUpper { rel } => ReadAsk::LookInUpper { rel: rel@ },
            ReadDo::OpenFile { in_upper, rel } => ReadAsk::OpenFile { in_upper: *in_upper, rel: rel@ },
            ReadDo::OpenDirectory { rel } => ReadAsk::OpenDirectory { rel: rel@ },
            ReadDo::Inject { closes_on_exec } => ReadAsk::Inject { closes_on_exec: *closes_on_exec },
            ReadDo::RewriteExec { fd, path, argv, envp } => ReadAsk::RewriteExec {
                fd: *fd,
                path: *path,
                argv: *argv,
                envp: *envp,
            },
            ReadDo::RewritePath { address, bytes } => ReadAsk::RewritePath { address: *address, bytes: bytes@ },
            ReadDo::Remember { cwd } => ReadAsk::Remember { cwd: cwd@ },
            ReadDo::Forget => ReadAsk::Forget,
            ReadDo::Lead { path, follow } => ReadAsk::Lead { path: path@, follow: *follow },
            ReadDo::CopyUp { path } => ReadAsk::CopyUp { path: path@ },
            ReadDo::ReadTimes { address, size } => ReadAsk::ReadTimes { address: *address, size: *size as int },
            ReadDo::Stamp { in_upper, rel, times, follow } => ReadAsk::Stamp {
                in_upper: *in_upper,
                rel: rel@,
                times: paths::found_bytes(*times),
                follow: *follow,
            },
        }
    }
}

/// The call is answered.
pub open spec fn answer(reply: Reply) -> ReadAsk {
    ReadAsk::Walk(walk::WalkAsk::Answer(reply))
}

fn reply(told: Reply) -> (step: ReadDo)
    ensures
        step@ == answer(told),
{
    ReadDo::Walk(WalkStep::Answer(told))
}

/// What follows once there is something to write to the task.
pub open spec fn delivered(what: ReadAsk, value: int, seen: ReadSeen) -> ReadAsk {
    match seen.is_written {
        None => what,
        Some(false) => answer(Reply::Continue),
        Some(true) => answer(Reply::Value(value as i64)),
    }
}

fn deliver(what: ReadDo, value: i64, seen: &ReadSeen) -> (step: ReadDo)
    ensures
        step@ == delivered(what@, value as int, *seen),
{
    match seen.is_written {
        None => what,
        Some(false) => reply(Reply::Continue),
        Some(true) => reply(Reply::Value(value)),
    }
}

/// The layer that a file lies in, and its path there; or the error of a file that
/// lies in none.
pub open spec fn layer_place(actual: Seq<u8>, seen: WalkSeen) -> Result<(bool, Seq<u8>), i32> {
    match paths::picked_layer(seen.layers->0->0.workdir@, seen.layers->0->0.upper@, actual) {
        None => Err(EACCES),
        Some((in_upper, rel)) => if vstd::utf8::valid_utf8(rel) {
            Ok((in_upper, rel))
        } else {
            Err(EINVAL)
        },
    }
}

fn find_layer(actual: &[u8], seen: &WalkSeen) -> (result: Result<LayerPath, i32>)
    requires
        seen.layers matches Some(Some(_)),
    ensures
        match (result, layer_place(actual@, *seen)) {
            (Ok(place), Ok((in_upper, rel))) => place.in_upper == in_upper && place.rel@ == rel,
            (Err(errno), Err(meant)) => errno == meant,
            _ => false,
        },
{
    match &seen.layers {
        Some(Some(layers)) => layers.pick_root_rel(actual),
        _ => Err(EACCES),
    }
}

/// The path of the branch that a call may look at.
pub open spec fn looked_path(dirfd: i64, address: u64, bits: u32, seen: ReadSeen) -> Result<Seq<u8>, ReadAsk> {
    match walk::open_path(dirfd, address, bits, seen.walk) {
        Err(ask) => Err(ReadAsk::Walk(ask)),
        Ok(logical) => Ok(logical),
    }
}

fn find_looked(dirfd: i64, address: u64, bits: u32, seen: &ReadSeen) -> (result: Result<Vec<u8>, ReadDo>)
    ensures
        match (result, looked_path(dirfd, address, bits, *seen)) {
            (Ok(found), Ok(logical)) => found@ == logical && seen.walk.layers matches Some(Some(_)),
            (Err(step), Err(ask)) => step@ == ask,
            _ => false,
        },
{
    match seen.walk.find_open(dirfd, address, bits) {
        Ok(logical) => {
            proof {
                walk::law_no_look_without_leave(dirfd, address, bits, seen.walk);
            }
            Ok(logical)
        },
        Err(step) => Err(ReadDo::Walk(step)),
    }
}

/// What is asked next of a question about access.
pub open spec fn access_ask(call: AccessCall, args: Seq<u64>, seen: ReadSeen) -> ReadAsk {
    let request = read::access_request(call, args);
    match walk::claimed_path(request.dirfd, request.path_address, seen.walk) {
        Err(ask) => ReadAsk::Walk(ask),
        Ok(logical) => match seen.is_directory {
            None => ReadAsk::LookAtKind { path: logical, follow: request.follow },
            Some(is_directory) => match walk::access_checked(
                logical,
                read::access_permissions(request.mode, is_directory),
                seen.walk,
            ) {
                Err(ask) => ReadAsk::Walk(ask),
                Ok(_) => if request.mode & W_OK == 0 {
                    answer(Reply::Continue)
                } else {
                    match seen.exists {
                        None => ReadAsk::LookForPath { path: logical },
                        Some(true) => answer(Reply::Value(0)),
                        Some(false) => answer(Reply::Continue),
                    }
                },
            },
        },
    }
}

/// Tells what is done next of a question about access. A path that the branch
/// claims can be written, whatever the kernel says of it.
pub fn handle_cow_access(call: AccessCall, args: &[u64; 6], seen: &ReadSeen) -> (step: ReadDo)
    ensures
        step@ == access_ask(call, args@, *seen),
{
    let request = parse_access(call, args);
    let logical = match seen.walk.find_claimed(request.dirfd, request.path_address) {
        Ok(logical) => logical,
        Err(step) => {
            return ReadDo::Walk(step);
        },
    };
    let is_directory = match seen.is_directory {
        None => {
            return ReadDo::LookAtKind { path: logical, follow: request.follow };
        },
        Some(is_directory) => is_directory,
    };
    match seen.walk.check_access(logical.as_slice(), access_leaf_bits(request.mode, is_directory)) {
        Ok(_) => {},
        Err(step) => {
            return ReadDo::Walk(step);
        },
    }
    if request.mode & W_OK == 0 {
        return reply(Reply::Continue);
    }
    match seen.exists {
        None => ReadDo::LookForPath { path: logical },
        Some(true) => reply(Reply::Value(0)),
        Some(false) => reply(Reply::Continue),
    }
}

/// The mode that the branch keeps for a pinned inode, where it lies in a layer.
pub open spec fn handle_looked(seen: ReadSeen) -> Result<Option<u32>, ReadAsk> {
    match seen.pinned->0 {
        Err(errno) => Err(answer(Reply::Errno(errno))),
        Ok(fd) => match fd.actual {
            None => Err(answer(Reply::Errno(EBADF))),
            Some(actual) => match seen.handle {
                None => Err(ReadAsk::LookAtHandle { actual: actual@ }),
                Some(None) => Err(answer(Reply::Continue)),
                Some(Some(facts)) => if facts.in_layer {
                    Ok(facts.logical_mode)
                } else {
                    Err(answer(Reply::Continue))
                },
            },
        },
    }
}

fn look_at_handle(pinned: &Result<PinnedFd, i32>, seen: &ReadSeen) -> (result: Result<Option<u32>, ReadDo>)
    requires
        seen.pinned == Some(*pinned),
    ensures
        match (result, handle_looked(*seen)) {
            (Ok(mode), Ok(meant)) => mode == meant,
            (Err(step), Err(ask)) => step@ == ask,
            _ => false,
        },
{
    match pinned {
        Err(errno) => Err(reply(Reply::Errno(*errno))),
        Ok(fd) => match &fd.actual {
            None => Err(reply(Reply::Errno(EBADF))),
            Some(actual) => match seen.handle {
                None => Err(ReadDo::LookAtHandle { actual: copy_bytes(actual.as_slice()) }),
                Some(None) => Err(reply(Reply::Continue)),
                Some(Some(facts)) => {
                    if facts.in_layer {
                        Ok(facts.logical_mode)
                    } else {
                        Err(reply(Reply::Continue))
                    }
                },
            },
        },
    }
}

/// What follows once the mode of a file was asked for.
pub open spec fn mode_told(ask: ReadAsk, address: u64, logical_mode: Option<u32>, seen: ReadSeen) -> ReadAsk {
    match seen.mode {
        None => ask,
        Some(Err(errno)) => answer(Reply::Errno(errno)),
        Some(Ok(mode)) => delivered(
            ReadAsk::WriteMode { address, mode: read::with_logical_mode(mode, logical_mode) },
            0,
            seen,
        ),
    }
}

fn tell_mode(ask: ReadDo, address: u64, logical_mode: Option<u32>, seen: &ReadSeen) -> (step: ReadDo)
    ensures
        step@ == mode_told(ask@, address, logical_mode, *seen),
{
    match seen.mode {
        None => ask,
        Some(Err(errno)) => reply(Reply::Errno(errno)),
        Some(Ok(mode)) => deliver(ReadDo::WriteMode { address, mode: patch_mode(mode, logical_mode) }, 0, seen),
    }
}

/// What follows once the metadata of a pinned inode is asked for.
pub open spec fn pinned_stat_ask(address: u64, seen: ReadSeen) -> ReadAsk {
    match handle_looked(seen) {
        Err(ask) => ask,
        Ok(logical_mode) => mode_told(ReadAsk::StatHandle, address, logical_mode, seen),
    }
}

/// What is asked next of the metadata of a descriptor.
pub open spec fn fd_stat_ask(fd: i32, address: u64, seen: ReadSeen) -> ReadAsk {
    match seen.pinned {
        None => ReadAsk::PinDescriptor { fd },
        Some(_) => pinned_stat_ask(address, seen),
    }
}

fn stat_fd(fd: i32, address: u64, seen: &ReadSeen) -> (step: ReadDo)
    ensures
        step@ == fd_stat_ask(fd, address, *seen),
{
    match &seen.pinned {
        None => ReadDo::PinDescriptor { fd },
        Some(pinned) => match look_at_handle(pinned, seen) {
            Err(step) => step,
            Ok(logical_mode) => tell_mode(ReadDo::StatHandle, address, logical_mode, seen),
        },
    }
}

/// What is asked next of `fstat(fd, statbuf)`.
pub open spec fn fstat_ask(args: Seq<u64>, seen: ReadSeen) -> ReadAsk {
    fd_stat_ask(args[0] as i32, args[1], seen)
}

/// Tells what is done next of the metadata of a descriptor.
pub fn handle_cow_fstat(args: &[u64; 6], seen: &ReadSeen) -> (step: ReadDo)
    ensures
        step@ == fstat_ask(args@, *seen),
{
    stat_fd(args[0] as i32, args[1], seen)
}

/// What follows once the branch says where the file of a path lies.
pub open spec fn path_stat_ask(request: read::StatRequest, logical: Seq<u8>, seen: ReadSeen) -> ReadAsk {
    let follow = request.follow;
    let only_exists = request.only_exists;
    match seen.look {
        None => ReadAsk::Look { path: logical, follow },
        Some(look) => match look.actual {
            None => answer(Reply::Errno(ENOENT)),
            Some(actual) => match layer_place(actual@, seen.walk) {
                Err(errno) => answer(Reply::Errno(if only_exists { ENOENT } else { errno })),
                Ok((in_upper, rel)) => if only_exists {
                    match seen.mode {
                        None => ReadAsk::StatAt { in_upper, rel, follow: false },
                        Some(Ok(_)) => answer(Reply::Value(0)),
                        Some(Err(_)) => answer(Reply::Errno(ENOENT)),
                    }
                } else {
                    mode_told(
                        ReadAsk::StatAt { in_upper, rel, follow },
                        request.buffer,
                        look.logical_mode,
                        seen,
                    )
                },
            },
        },
    }
}

fn stat_path(request: read::StatRequest, logical: Vec<u8>, seen: &ReadSeen) -> (step: ReadDo)
    requires
        seen.walk.layers matches Some(Some(_)),
    ensures
        step@ == path_stat_ask(request, logical@, *seen),
{
    let follow = request.follow;
    let only_exists = request.only_exists;
    let look = match &seen.look {
        None => {
            return ReadDo::Look { path: logical, follow };
        },
        Some(look) => look,
    };
    let actual = match &look.actual {
        None => {
            return reply(Reply::Errno(ENOENT));
        },
        Some(actual) => actual,
    };
    let place = match find_layer(actual.as_slice(), &seen.walk) {
        Ok(place) => place,
        Err(errno) => {
            return reply(Reply::Errno(if only_exists { ENOENT } else { errno }));
        },
    };
    if only_exists {
        return match seen.mode {
            None => ReadDo::StatAt { in_upper: place.in_upper, rel: place.rel, follow: false },
            Some(Ok(_)) => reply(Reply::Value(0)),
            Some(Err(_)) => reply(Reply::Errno(ENOENT)),
        };
    }
    tell_mode(
        ReadDo::StatAt { in_upper: place.in_upper, rel: place.rel, follow },
        request.buffer,
        look.logical_mode,
        seen,
    )
}

/// What the task wrote for a path, once it was read.
pub open spec fn read_written(seen: ReadSeen) -> Option<Seq<u8>> {
    match seen.walk.written {
        Some(written) => paths::found_bytes(written),
        None => None,
    }
}

/// What is asked next of the metadata of a path.
pub open spec fn stat_ask(call: StatCall, args: Seq<u64>, seen: ReadSeen) -> ReadAsk {
    let request = read::stat_request(call, args);
    if seen.walk.written is None && !(request.allows_empty && request.path_address == 0) {
        ReadAsk::Walk(walk::WalkAsk::ReadPath { address: request.path_address })
    } else {
        match read::stat_target(request.dirfd, request.allows_empty, request.path_address, read_written(seen)) {
            StatTarget::Cwd => match seen.pinned {
                None => ReadAsk::PinCwd,
                Some(_) => pinned_stat_ask(request.buffer, seen),
            },
            StatTarget::Descriptor(fd) => fd_stat_ask(fd, request.buffer, seen),
            StatTarget::Unreadable => answer(Reply::Continue),
            StatTarget::Path => match looked_path(request.dirfd, request.path_address, 0, seen) {
                Err(ask) => ask,
                Ok(logical) => path_stat_ask(request, logical, seen),
            },
        }
    }
}

/// Tells what is done next of the metadata of a path.
pub fn handle_cow_stat(call: StatCall, args: &[u64; 6], seen: &ReadSeen) -> (step: ReadDo)
    ensures
        step@ == stat_ask(call, args@, *seen),
{
    let request = parse_stat(call, args);
    let unread: Option<Vec<u8>> = None;
    let written = match &seen.walk.written {
        None => {
            if !(request.allows_empty && request.path_address == 0) {
                return ReadDo::Walk(WalkStep::ReadPath { address: request.path_address });
            }
            &unread
        },
        Some(written) => written,
    };
    match choose_stat_target(request.dirfd, request.allows_empty, request.path_address, written) {
        StatTarget::Cwd => match &seen.pinned {
            None => ReadDo::PinCwd,
            Some(pinned) => match look_at_handle(pinned, seen) {
                Err(step) => step,
                Ok(logical_mode) => tell_mode(ReadDo::StatHandle, request.buffer, logical_mode, seen),
            },
        },
        StatTarget::Descriptor(fd) => stat_fd(fd, request.buffer, seen),
        StatTarget::Unreadable => reply(Reply::Continue),
        StatTarget::Path => match find_looked(request.dirfd, request.path_address, 0, seen) {
            Err(step) => step,
            Ok(logical) => stat_path(request, logical, seen),
        },
    }
}

/// What follows once extended metadata was asked for.
pub open spec fn metadata_told(
    ask: ReadAsk,
    address: u64,
    logical_mode: Option<u32>,
    order: ByteOrder,
    seen: ReadSeen,
) -> ReadAsk {
    match seen.metadata {
        None => ask,
        Some(Err(errno)) => answer(Reply::Errno(errno)),
        Some(Ok(bytes)) => delivered(
            ReadAsk::WriteBytes { address, bytes: read::patched_statx(bytes@, logical_mode, order) },
            0,
            seen,
        ),
    }
}

fn tell_metadata(ask: ReadDo, address: u64, logical_mode: Option<u32>, order: ByteOrder, seen: &ReadSeen) -> (step:
    ReadDo)
    ensures
        step@ == metadata_told(ask@, address, logical_mode, order, *seen),
{
    match &seen.metadata {
        None => ask,
        Some(Err(errno)) => reply(Reply::Errno(*errno)),
        Some(Ok(read)) => {
            let mut bytes = copy_bytes(read.as_slice());
            patch_statx_mode(&mut bytes, logical_mode, order);
            deliver(ReadDo::WriteBytes { address, bytes }, 0, seen)
        },
    }
}

/// What is asked next of `statx(dirfd, path, flags, mask, statxbuf)`.
pub open spec fn statx_ask(args: Seq<u64>, order: ByteOrder, seen: ReadSeen) -> ReadAsk {
    let dirfd = args[0] as i64;
    let flags = args[2] as i32;
    let mask = args[3] as u32;
    let buffer = args[4];
    let allows_empty = args[2] & AT_EMPTY_PATH != 0;
    let follow = args[2] & AT_SYMLINK_NOFOLLOW == 0;
    if seen.walk.written is None && !(allows_empty && args[1] == 0) {
        ReadAsk::Walk(walk::WalkAsk::ReadPath { address: args[1] })
    } else {
        match read::stat_target(dirfd, allows_empty, args[1], read_written(seen)) {
            StatTarget::Unreadable => answer(Reply::Continue),
            StatTarget::Path => if read_written(seen)->0.len() == 0 {
                answer(Reply::Continue)
            } else {
                match looked_path(dirfd, args[1], 0, seen) {
                    Err(ask) => ask,
                    Ok(logical) => match seen.look {
                        None => ReadAsk::Look { path: logical, follow },
                        Some(look) => match look.actual {
                            None => answer(Reply::Errno(ENOENT)),
                            Some(actual) => match layer_place(actual@, seen.walk) {
                                Err(errno) => answer(Reply::Errno(errno)),
                                Ok((in_upper, rel)) => metadata_told(
                                    ReadAsk::StatxAt { in_upper, rel, flags, mask },
                                    buffer,
                                    look.logical_mode,
                                    order,
                                    seen,
                                ),
                            },
                        },
                    },
                }
            },
            StatTarget::Cwd => match seen.pinned {
                None => ReadAsk::PinCwd,
                Some(_) => match handle_looked(seen) {
                    Err(ask) => ask,
                    Ok(logical_mode) => metadata_told(
                        ReadAsk::StatxHandle { flags, mask },
                        buffer,
                        logical_mode,
                        order,
                        seen,
                    ),
                },
            },
            StatTarget::Descriptor(fd) => match seen.pinned {
                None => ReadAsk::PinDescriptor { fd },
                Some(_) => match handle_looked(seen) {
                    Err(ask) => ask,
                    Ok(logical_mode) => metadata_told(
                        ReadAsk::StatxHandle { flags, mask },
                        buffer,
                        logical_mode,
                        order,
                        seen,
                    ),
                },
            },
        }
    }
}

/// Tells what is done next of the extended metadata of a path.
pub fn handle_cow_statx(args: &[u64; 6], order: ByteOrder, seen: &ReadSeen) -> (step: ReadDo)
    ensures
        step@ == statx_ask(args@, order, *seen),
{
    let dirfd = args[0] as i64;
    let flags: i32 = args[2] as i32;
    let mask: u32 = args[3] as u32;
    let buffer: u64 = args[4];
    let allows_empty = args[2] & AT_EMPTY_PATH != 0;
    let follow = args[2] & AT_SYMLINK_NOFOLLOW == 0;
    let unread: Option<Vec<u8>> = None;
    let written = match &seen.walk.written {
        None => {
            if !(allows_empty && args[1] == 0) {
                return ReadDo::Walk(WalkStep::ReadPath { address: args[1] });
            }
            &unread
        },
        Some(written) => written,
    };
    let target = choose_stat_target(dirfd, allows_empty, args[1], written);
    match target {
        StatTarget::Unreadable => {
            return reply(Reply::Continue);
        },
        StatTarget::Path => {},
        StatTarget::Cwd | StatTarget::Descriptor(_) => {
            let pinned = match &seen.pinned {
                None => {
                    return match target {
                        StatTarget::Descriptor(fd) => ReadDo::PinDescriptor { fd },
                        _ => ReadDo::PinCwd,
                    };
                },
                Some(pinned) => pinned,
            };
            return match look_at_handle(pinned, seen) {
                Err(step) => step,
                Ok(logical_mode) => tell_metadata(
                    ReadDo::StatxHandle { flags, mask },
                    buffer,
                    logical_mode,
                    order,
                    seen,
                ),
            };
        },
    }
    match written {
        Some(named) => {
            if named.len() == 0 {
                return reply(Reply::Continue);
            }
        },
        None => {
            return reply(Reply::Continue);
        },
    }
    let logical = match find_looked(dirfd, args[1], 0, seen) {
        Ok(logical) => logical,
        Err(step) => {
            return step;
        },
    };
    let look = match &seen.look {
        None => {
            return ReadDo::Look { path: logical, follow };
        },
        Some(look) => look,
    };
    let actual = match &look.actual {
        None => {
            return reply(Reply::Errno(ENOENT));
        },
        Some(actual) => actual,
    };
    match find_layer(actual.as_slice(), &seen.walk) {
        Ok(place) => tell_metadata(
            ReadDo::StatxAt { in_upper: place.in_upper, rel: place.rel, flags, mask },
            buffer,
            look.logical_mode,
            order,
            seen,
        ),
        Err(errno) => reply(Reply::Errno(errno)),
    }
}

/// The calls that execute a file.
#[derive(Clone, Copy, Debug, PartialEq, Eq, Structural)]
pub enum ExecCall {
    /// `execve(path, argv, envp)`.
    Execve,
    /// `execveat(dirfd, path, argv, envp, flags)`.
    ExecveAt,
}

/// What an execution asks for, and where its arguments are.
#[derive(Clone, Copy, Debug, PartialEq, Eq, Structural)]
pub struct ExecRequest {
    pub dirfd: i64,
    pub path: u64,
    pub argv: u64,
    pub envp: u64,
}

/// What an execution asks for.
pub open spec fn exec_request(call: ExecCall, args: Seq<u64>) -> ExecRequest {
    match call {
        ExecCall::Execve => ExecRequest { dirfd: AT_FDCWD as i64, path: args[0], argv: args[1], envp: args[2] },
        ExecCall::ExecveAt => ExecRequest { dirfd: args[0] as i64, path: args[1], argv: args[2], envp: args[3] },
    }
}

/// Reads what an execution asks for.
pub fn parse_exec(call: ExecCall, args: &[u64; 6]) -> (request: ExecRequest)
    ensures
        request == exec_request(call, args@),
{
    match call {
        ExecCall::Execve => ExecRequest { dirfd: AT_FDCWD as i64, path: args[0], argv: args[1], envp: args[2] },
        ExecCall::ExecveAt => ExecRequest { dirfd: args[0] as i64, path: args[1], argv: args[2], envp: args[3] },
    }
}

/// What is asked next of an execution: a file of the upper layer is handed over as
/// a descriptor, any other is left to the kernel.
pub open spec fn exec_ask(call: ExecCall, args: Seq<u64>, seen: ReadSeen) -> ReadAsk {
    let request = exec_request(call, args);
    match looked_path(request.dirfd, request.path, 0, seen) {
        Err(ask) => ask,
        Ok(logical) => match seen.look {
            None => ReadAsk::Look { path: logical, follow: true },
            Some(look) => match look.actual {
                None => answer(Reply::Errno(ENOENT)),
                Some(actual) => if !path::starts_with(
                    path::parts(actual@),
                    path::parts(seen.walk.layers->0->0.upper@),
                ) {
                    answer(Reply::Continue)
                } else {
                    match layer_place(actual@, seen.walk) {
                        Err(_) => answer(Reply::Errno(ENOENT)),
                        Ok((in_upper, rel)) => match seen.opened {
                            None => ReadAsk::OpenFile { in_upper, rel },
                            Some(false) => answer(Reply::Errno(ENOENT)),
                            Some(true) => match seen.injected {
                                None => ReadAsk::Inject { closes_on_exec: false },
                                Some(None) => answer(Reply::Errno(EIO)),
                                Some(Some(fd)) => match seen.is_written {
                                    None => ReadAsk::RewriteExec {
                                        fd,
                                        path: request.path,
                                        argv: request.argv,
                                        envp: request.envp,
                                    },
                                    Some(false) => answer(Reply::Errno(EFAULT)),
                                    Some(true) => answer(Reply::Continue),
                                },
                            },
                        },
                    }
                },
            },
        },
    }
}

/// Tells what is done next of an execution.
pub fn handle_cow_exec(call: ExecCall, args: &[u64; 6], seen: &ReadSeen) -> (step: ReadDo)
    ensures
        step@ == exec_ask(call, args@, *seen),
{
    let request = parse_exec(call, args);
    let logical = match find_looked(request.dirfd, request.path, 0, seen) {
        Ok(logical) => logical,
        Err(step) => {
            return step;
        },
    };
    let look = match &seen.look {
        None => {
            return ReadDo::Look { path: logical, follow: true };
        },
        Some(look) => look,
    };
    let actual = match &look.actual {
        None => {
            return reply(Reply::Errno(ENOENT));
        },
        Some(actual) => actual,
    };
    match &seen.walk.layers {
        Some(Some(layers)) => {
            if !path_starts_with(actual.as_slice(), layers.upper.as_slice()) {
                return reply(Reply::Continue);
            }
        },
        _ => {
            return reply(Reply::Continue);
        },
    }
    let place = match find_layer(actual.as_slice(), &seen.walk) {
        Ok(place) => place,
        Err(_) => {
            return reply(Reply::Errno(ENOENT));
        },
    };
    match seen.opened {
        None => {
            return ReadDo::OpenFile { in_upper: place.in_upper, rel: place.rel };
        },
        Some(false) => {
            return reply(Reply::Errno(ENOENT));
        },
        Some(true) => {},
    }
    match seen.injected {
        None => ReadDo::Inject { closes_on_exec: false },
        Some(None) => reply(Reply::Errno(EIO)),
        Some(Some(fd)) => match seen.is_written {
            None => ReadDo::RewriteExec {
                fd,
                path: request.path,
                argv: request.argv,
                envp: request.envp,
            },
            Some(false) => reply(Reply::Errno(EFAULT)),
            Some(true) => reply(Reply::Continue),
        },
    }
}

/// As much of what a link holds as there is room for.
pub open spec fn fitting(held: Seq<u8>, buffer_size: u64) -> Seq<u8> {
    let room = (buffer_size & 0xffff_ffff) as int;
    if held.len() <= room {
        held
    } else {
        held.take(room)
    }
}

/// What is asked next of `readlinkat(dirfd, path, buffer, size)`.
pub open spec fn readlink_ask(args: Seq<u64>, seen: ReadSeen) -> ReadAsk {
    match looked_path(args[0] as i64, args[1], 0, seen) {
        Err(ask) => ask,
        Ok(logical) => match seen.symlink {
            None => ReadAsk::ReadSymlink { path: logical },
            Some(None) => answer(Reply::Errno(ENOENT)),
            Some(Some(held)) => delivered(
                ReadAsk::WriteBytes { address: args[2], bytes: fitting(held@, args[3]) },
                fitting(held@, args[3]).len() as int,
                seen,
            ),
        },
    }
}

/// Tells what is done next of reading a symbolic link.
pub fn handle_cow_readlink(args: &[u64; 6], seen: &ReadSeen) -> (step: ReadDo)
    ensures
        step@ == readlink_ask(args@, *seen),
{
    let logical = match find_looked(args[0] as i64, args[1], 0, seen) {
        Ok(logical) => logical,
        Err(step) => {
            return step;
        },
    };
    match &seen.symlink {
        None => ReadDo::ReadSymlink { path: logical },
        Some(None) => reply(Reply::Errno(ENOENT)),
        Some(Some(held)) => {
            let size: u64 = args[3];
            let room: u64 = size & 0xffff_ffff;
            let bytes = if held.len() as u64 <= room {
                copy_bytes(held.as_slice())
            } else {
                copy_bytes(vstd::slice::slice_subrange(held.as_slice(), 0, room as usize))
            };
            proof {
                assert(bytes@ =~= fitting(held@, args@[3]));
            }
            let count = bytes.len() as i64;
            deliver(ReadDo::WriteBytes { address: args[2], bytes }, count, seen)
        },
    }
}

/// What is asked next of a change of directory: one that only the branch has is
/// handed over as a descriptor.
pub open spec fn chdir_ask(args: Seq<u64>, seen: ReadSeen) -> ReadAsk {
    match looked_path(AT_FDCWD as i64, args[0], OWNER_EXECUTE, seen) {
        Err(ask) => ask,
        Ok(logical) => match seen.rel {
            None => ReadAsk::FindRel { path: logical },
            Some(None) => answer(Reply::Continue),
            Some(Some(rel)) => match seen.kernel_knows {
                None => ReadAsk::LookForDirectory { path: logical },
                Some(true) => answer(Reply::Continue),
                Some(false) => match seen.upper_has {
                    None => ReadAsk::LookInUpper { rel: rel@ },
                    Some(false) => answer(Reply::Continue),
                    Some(true) => match seen.opened {
                        None => ReadAsk::OpenDirectory { rel: rel@ },
                        Some(false) => answer(Reply::Errno(ENOENT)),
                        Some(true) => match seen.injected {
                            None => ReadAsk::Inject { closes_on_exec: true },
                            Some(None) => answer(Reply::Errno(EIO)),
                            Some(Some(fd)) => if read::own_fd_path(fd as int).len() > read_written(seen)->0.len() + 1 {
                                answer(Reply::Errno(ENOENT))
                            } else {
                                match seen.is_written {
                                    None => ReadAsk::RewritePath {
                                        address: args[0],
                                        bytes: read::own_fd_path(fd as int),
                                    },
                                    Some(false) => answer(Reply::Errno(EFAULT)),
                                    Some(true) => ReadAsk::Remember { cwd: logical },
                                }
                            },
                        },
                    },
                },
            },
        },
    }
}

/// Tells what is done next of a change of directory.
pub fn handle_cow_chdir(args: &[u64; 6], seen: &ReadSeen) -> (step: ReadDo)
    ensures
        step@ == chdir_ask(args@, *seen),
{
    let logical = match find_looked(AT_FDCWD as i64, args[0], OWNER_EXECUTE, seen) {
        Ok(logical) => logical,
        Err(step) => {
            return step;
        },
    };
    proof {
        walk::law_no_look_without_leave(AT_FDCWD as i64, args@[0], OWNER_EXECUTE, seen.walk);
    }
    let rel = match &seen.rel {
        None => {
            return ReadDo::FindRel { path: logical };
        },
        Some(None) => {
            return reply(Reply::Continue);
        },
        Some(Some(rel)) => rel,
    };
    match seen.kernel_knows {
        None => {
            return ReadDo::LookForDirectory { path: logical };
        },
        Some(true) => {
            return reply(Reply::Continue);
        },
        Some(false) => {},
    }
    match seen.upper_has {
        None => {
            return ReadDo::LookInUpper { rel: copy_bytes(rel.as_slice()) };
        },
        Some(false) => {
            return reply(Reply::Continue);
        },
        Some(true) => {},
    }
    match seen.opened {
        None => {
            return ReadDo::OpenDirectory { rel: copy_bytes(rel.as_slice()) };
        },
        Some(false) => {
            return reply(Reply::Errno(ENOENT));
        },
        Some(true) => {},
    }
    let fd = match seen.injected {
        None => {
            return ReadDo::Inject { closes_on_exec: true };
        },
        Some(None) => {
            return reply(Reply::Errno(EIO));
        },
        Some(Some(fd)) => fd,
    };
    let rewritten = match &seen.walk.written {
        Some(Some(written)) => rewrite_to_fd(written.as_slice(), fd),
        _ => {
            return reply(Reply::Errno(ENOENT));
        },
    };
    match rewritten {
        Err(told) => reply(told),
        Ok(bytes) => match seen.is_written {
            None => ReadDo::RewritePath { address: args[0], bytes },
            Some(false) => reply(Reply::Errno(EFAULT)),
            Some(true) => ReadDo::Remember { cwd: logical },
        },
    }
}

/// What is asked next of setting the times of a file.
pub open spec fn utimensat_ask(args: Seq<u64>, seen: ReadSeen) -> ReadAsk {
    let follow = args[3] & AT_SYMLINK_NOFOLLOW == 0;
    if args[1] == 0 {
        match (seen.pinned, seen.branch) {
            (None, _) => ReadAsk::PinDescriptor { fd: args[0] as i64 as i32 },
            (Some(_), None) => ReadAsk::ReadBranch,
            (Some(pinned), Some(branch)) => answer(crate::cow::write::fd_metadata_reply(pinned, branch)),
        }
    } else {
        match walk::claimed_path(args[0] as i64, args[1], seen.walk) {
            Err(ask) => ReadAsk::Walk(ask),
            Ok(logical) => match seen.led {
                None => ReadAsk::Lead { path: logical, follow },
                Some(Err(errno)) => answer(Reply::Errno(errno)),
                Some(Ok(led)) => match walk::access_checked(led@, 0, seen.walk) {
                    Err(ask) => ReadAsk::Walk(ask),
                    Ok(_) => match seen.upper {
                        None => ReadAsk::CopyUp { path: led@ },
                        Some(Err(fault)) => answer(Reply::Errno(if fault is QuotaExceeded { ENOSPC } else { EIO })),
                        Some(Ok(None)) => answer(Reply::Errno(EIO)),
                        Some(Ok(Some(upper))) => stamp_ask(args[2], follow, upper@, seen),
                    },
                },
            },
        }
    }
}

/// The bytes that the two times of a file take.
pub const TIMES_BYTES: usize = 32;

/// What follows once the file whose times are set is in the upper layer.
pub open spec fn stamp_ask(times: u64, follow: bool, upper: Seq<u8>, seen: ReadSeen) -> ReadAsk {
    if times != 0 && seen.times is None {
        ReadAsk::ReadTimes { address: times, size: TIMES_BYTES as int }
    } else if times != 0 && seen.times->0 is None {
        answer(Reply::Errno(EFAULT))
    } else {
        let told = if times == 0 {
            None
        } else {
            Some(seen.times->0->0@)
        };
        match layer_place(upper, seen.walk) {
            Err(errno) => answer(Reply::Errno(errno)),
            Ok((in_upper, rel)) => match seen.stamped {
                None => ReadAsk::Stamp { in_upper, rel, times: told, follow },
                Some(Err(errno)) => answer(Reply::Errno(errno)),
                Some(Ok(_)) => answer(Reply::Value(0)),
            },
        }
    }
}

/// Tells what is done next of setting the times of a file.
pub fn handle_cow_utimensat(args: &[u64; 6], seen: &ReadSeen) -> (step: ReadDo)
    ensures
        step@ == utimensat_ask(args@, *seen),
{
    let follow = args[3] & AT_SYMLINK_NOFOLLOW == 0;
    if args[1] == 0 {
        return match (&seen.pinned, &seen.branch) {
            (None, _) => ReadDo::PinDescriptor { fd: args[0] as i64 as i32 },
            (Some(_), None) => ReadDo::ReadBranch,
            (Some(pinned), Some(branch)) => reply(check_fd_metadata(pinned, branch)),
        };
    }
    let logical = match seen.walk.find_claimed(args[0] as i64, args[1]) {
        Ok(logical) => logical,
        Err(step) => {
            return ReadDo::Walk(step);
        },
    };
    let led = match &seen.led {
        None => {
            return ReadDo::Lead { path: logical, follow };
        },
        Some(Err(errno)) => {
            return reply(Reply::Errno(*errno));
        },
        Some(Ok(led)) => led,
    };
    match seen.walk.check_access(led.as_slice(), 0) {
        Ok(_) => {},
        Err(step) => {
            return ReadDo::Walk(step);
        },
    }
    let upper = match &seen.upper {
        None => {
            return ReadDo::CopyUp { path: copy_bytes(led.as_slice()) };
        },
        Some(Err(fault)) => {
            return match fault {
                BranchFault::QuotaExceeded => reply(Reply::Errno(ENOSPC)),
                _ => reply(Reply::Errno(EIO)),
            };
        },
        Some(Ok(None)) => {
            return reply(Reply::Errno(EIO));
        },
        Some(Ok(Some(upper))) => upper,
    };
    let times: Option<Vec<u8>> = if args[2] == 0 {
        None
    } else {
        match &seen.times {
            None => {
                return ReadDo::ReadTimes { address: args[2], size: TIMES_BYTES };
            },
            Some(None) => {
                return reply(Reply::Errno(EFAULT));
            },
            Some(Some(told)) => Some(copy_bytes(told.as_slice())),
        }
    };
    match find_layer(upper.as_slice(), &seen.walk) {
        Err(errno) => reply(Reply::Errno(errno)),
        Ok(place) => match seen.stamped {
            None => ReadDo::Stamp { in_upper: place.in_upper, rel: place.rel, times, follow },
            Some(Err(errno)) => reply(Reply::Errno(errno)),
            Some(Ok(_)) => reply(Reply::Value(0)),
        },
    }
}

/// What follows once the working directory is known.
pub open spec fn cwd_told(cwd: Seq<u8>, buffer: u64, buffer_size: u64, seen: ReadSeen) -> ReadAsk {
    if cwd.len() + 1 > (buffer_size & 0xffff_ffff) {
        answer(Reply::Errno(ERANGE))
    } else {
        delivered(ReadAsk::WriteBytes { address: buffer, bytes: cwd.push(0) }, cwd.len() as int + 1, seen)
    }
}

/// What follows once the inode behind a descriptor is known to be a directory.
pub open spec fn fchdir_behind(actual: Seq<u8>, mode: u32, seen: ReadSeen) -> ReadAsk {
    match seen.walk.layers {
        None => ReadAsk::Walk(walk::WalkAsk::ReadLayers),
        Some(None) => answer(Reply::Continue),
        Some(Some(layers)) => match seen.walk.matches {
            None => ReadAsk::Walk(
                walk::WalkAsk::Match {
                    path: paths::logical_path(layers.workdir@, layers.upper@, text::lossy_text(actual)),
                },
            ),
            Some(false) => answer(Reply::Continue),
            Some(true) => match seen.handle {
                None => ReadAsk::LookAtHandle { actual },
                Some(None) => answer(Reply::Continue),
                Some(Some(facts)) => if paths::handle_mode(facts.logical_mode, mode) & OWNER_EXECUTE == 0 {
                    answer(Reply::Errno(EACCES))
                } else {
                    ReadAsk::Forget
                },
            },
        },
    }
}

/// What is asked next of a change of directory through a descriptor.
pub open spec fn fchdir_ask(args: Seq<u64>, seen: ReadSeen) -> ReadAsk {
    match seen.pinned {
        None => ReadAsk::PinDescriptor { fd: args[0] as i32 },
        Some(Err(errno)) => answer(Reply::Errno(errno)),
        Some(Ok(pinned)) => match seen.mode {
            None => ReadAsk::StatHandle,
            Some(Err(errno)) => answer(Reply::Errno(errno)),
            Some(Ok(mode)) => if mode & S_IFMT != S_IFDIR {
                answer(Reply::Errno(ENOTDIR))
            } else {
                match pinned.actual {
                    None => answer(Reply::Errno(EBADF)),
                    Some(actual) => fchdir_behind(actual@, mode, seen),
                }
            },
        },
    }
}

/// Tells what is done next of a change of directory through a descriptor.
pub fn handle_cow_fchdir(args: &[u64; 6], seen: &ReadSeen) -> (step: ReadDo)
    ensures
        step@ == fchdir_ask(args@, *seen),
{
    let pinned = match &seen.pinned {
        None => return ReadDo::PinDescriptor { fd: args[0] as i32 },
        Some(Err(errno)) => return reply(Reply::Errno(*errno)),
        Some(Ok(pinned)) => pinned,
    };
    let mode = match seen.mode {
        None => return ReadDo::StatHandle,
        Some(Err(errno)) => return reply(Reply::Errno(errno)),
        Some(Ok(mode)) => mode,
    };
    if mode & S_IFMT != S_IFDIR {
        return reply(Reply::Errno(ENOTDIR));
    }
    let actual = match &pinned.actual {
        None => return reply(Reply::Errno(EBADF)),
        Some(actual) => actual,
    };
    let layers = match &seen.walk.layers {
        None => return ReadDo::Walk(WalkStep::ReadLayers),
        Some(None) => return reply(Reply::Continue),
        Some(Some(layers)) => layers,
    };
    match seen.walk.matches {
        None => {
            let told = text::lossy(actual.as_slice());
            return ReadDo::Walk(WalkStep::Match { path: layers.map_upper_path(told.as_slice()) });
        },
        Some(false) => return reply(Reply::Continue),
        Some(true) => {},
    }
    let facts = match seen.handle {
        None => return ReadDo::LookAtHandle { actual: copy_bytes(actual.as_slice()) },
        Some(None) => return reply(Reply::Continue),
        Some(Some(facts)) => facts,
    };
    let permissions = match facts.logical_mode {
        Some(kept) => kept,
        None => mode & 0o7777,
    };
    if permissions & OWNER_EXECUTE == 0 {
        reply(Reply::Errno(EACCES))
    } else {
        ReadDo::Forget
    }
}

/// A directory that the owner may not search is not changed into through a
/// descriptor: the call goes to the kernel only where the branch does not claim the
/// directory, or lets its owner search it.
pub proof fn law_unsearchable_directories_are_not_entered(
    args: Seq<u64>,
    seen: ReadSeen,
    mode: u32,
    facts: HandleFacts,
)
    requires
        seen.mode == Some(Ok::<u32, i32>(mode)),
        seen.walk.matches == Some(true),
        seen.walk.layers matches Some(Some(_)),
        seen.handle == Some(Some(facts)),
        paths::handle_mode(facts.logical_mode, mode) & OWNER_EXECUTE == 0,
        seen.pinned matches Some(Ok(pinned)) && pinned.actual is Some,
    ensures
        fchdir_ask(args, seen) matches ReadAsk::Walk(walk::WalkAsk::Answer(Reply::Errno(_))),
{
}

/// What is asked next of a change of the metadata of a descriptor.
pub open spec fn fd_metadata_ask(args: Seq<u64>, seen: ReadSeen) -> ReadAsk {
    match (seen.pinned, seen.branch) {
        (None, _) => ReadAsk::PinDescriptor { fd: args[0] as i32 },
        (Some(Ok(pinned)), None) => if pinned.actual is None {
            answer(Reply::Errno(EBADF))
        } else {
            ReadAsk::ReadBranch
        },
        (Some(Err(errno)), None) => answer(Reply::Errno(errno)),
        (Some(pinned), Some(branch)) => answer(crate::cow::write::fd_metadata_reply(pinned, branch)),
    }
}

/// Tells what is done next of a change of the metadata of a descriptor.
pub fn handle_cow_fd_metadata(args: &[u64; 6], seen: &ReadSeen) -> (step: ReadDo)
    ensures
        step@ == fd_metadata_ask(args@, *seen),
{
    match (&seen.pinned, &seen.branch) {
        (None, _) => ReadDo::PinDescriptor { fd: args[0] as i32 },
        (Some(Ok(pinned)), None) => {
            if pinned.actual.is_none() {
                reply(Reply::Errno(EBADF))
            } else {
                ReadDo::ReadBranch
            }
        },
        (Some(Err(errno)), None) => reply(Reply::Errno(*errno)),
        (Some(pinned), Some(branch)) => reply(check_fd_metadata(pinned, branch)),
    }
}

/// What is asked next of a question for the working directory: where the branch
/// led the task, else the name of a directory of the upper layer.
pub open spec fn getcwd_ask(args: Seq<u64>, seen: ReadSeen) -> ReadAsk {
    match seen.walk.virtual_cwd {
        None => ReadAsk::Walk(walk::WalkAsk::ReadVirtualCwd),
        Some(Some(cwd)) => cwd_told(cwd@, args[0], args[1], seen),
        Some(None) => match seen.walk.layers {
            None => ReadAsk::Walk(walk::WalkAsk::ReadLayers),
            Some(None) => answer(Reply::Continue),
            Some(Some(layers)) => match seen.walk.link {
                None => ReadAsk::Walk(walk::WalkAsk::ReadCwd),
                Some(link) => match read::shown_cwd(layers, paths::found_bytes(link)) {
                    None => answer(Reply::Continue),
                    Some(cwd) => cwd_told(cwd, args[0], args[1], seen),
                },
            },
        },
    }
}

/// Tells what is done next of a question for the working directory.
pub fn handle_cow_getcwd(args: &[u64; 6], seen: &ReadSeen) -> (step: ReadDo)
    ensures
        step@ == getcwd_ask(args@, *seen),
{
    let mut cwd = match &seen.walk.virtual_cwd {
        None => {
            return ReadDo::Walk(WalkStep::ReadVirtualCwd);
        },
        Some(Some(cwd)) => copy_bytes(cwd.as_slice()),
        Some(None) => {
            let layers = match &seen.walk.layers {
                None => {
                    return ReadDo::Walk(WalkStep::ReadLayers);
                },
                Some(None) => {
                    return reply(Reply::Continue);
                },
                Some(Some(layers)) => layers,
            };
            match &seen.walk.link {
                None => {
                    return ReadDo::Walk(WalkStep::ReadCwd);
                },
                Some(link) => match show_cwd(layers, link) {
                    None => {
                        return reply(Reply::Continue);
                    },
                    Some(cwd) => cwd,
                },
            }
        },
    };
    let size: u64 = args[1];
    let room: u64 = size & 0xffff_ffff;
    proof {
        assert(size & 0xffff_ffff <= 0xffff_ffff) by (bit_vector);
    }
    if cwd.len() as u64 >= room {
        return reply(Reply::Errno(ERANGE));
    }
    let count = cwd.len() as i64 + 1;
    cwd.push(0);
    deliver(ReadDo::WriteBytes { address: args[0], bytes: cwd }, count, seen)
}

/// What was learned so far of a listing; each part is there once it was asked for.
pub struct ListSeen {
    pub pinned: Option<Result<PinnedFd, i32>>,
    /// The root of the upper layer.
    pub upper: Vec<u8>,
    /// What the branch says of the directory; nothing without a branch.
    pub branch: Option<Option<DirectoryFacts>>,
    /// Whether the task is known.
    pub is_known: Option<bool>,
    /// The names of the merged directory, in order; nothing without a branch.
    pub names: Option<Option<Vec<NameLook>>>,
    /// The record of each name, where it has one.
    pub built: Option<Vec<Option<Vec<u8>>>>,
}

/// What is asked next of a listing.
#[verifier::ext_equal]
pub enum ListAsk {
    Answer(Reply),
    PinDescriptor { fd: i32 },
    LookAtDirectory { actual: Seq<u8> },
    LookForTask,
    Merge { rel: Seq<u8> },
    Build { records: Seq<read::RecordView> },
    Write { address: u64, bytes: Seq<u8> },
}

/// What is done next of a listing.
pub enum ListDo {
    Answer(Reply),
    PinDescriptor { fd: i32 },
    /// Ask the branch about the directory that is pinned.
    LookAtDirectory { actual: Vec<u8> },
    /// Tell whether the task is known.
    LookForTask,
    /// Look at the names of both layers of a directory.
    Merge { rel: Vec<u8> },
    /// Make the bytes of records.
    Build { records: Vec<RecordPlan> },
    /// Write records to the memory of the task.
    Write { address: u64, bytes: Vec<u8> },
}

impl View for ListDo {
    type V = ListAsk;

    open spec fn view(&self) -> ListAsk {
        match self {
            ListDo::Answer(reply) => ListAsk::Answer(*reply),
            ListDo::PinDescriptor { fd } => ListAsk::PinDescriptor { fd: *fd },
            ListDo::LookAtDirectory { actual } => ListAsk::LookAtDirectory { actual: actual@ },
            ListDo::LookForTask => ListAsk::LookForTask,
            ListDo::Merge { rel } => ListAsk::Merge { rel: rel@ },
            ListDo::Build { records } => ListAsk::Build { records: read::record_views(records@) },
            ListDo::Write { address, bytes } => ListAsk::Write { address: *address, bytes: bytes@ },
        }
    }
}

/// A directory that is listed: its path, and its path below the root of the branch.
#[verifier::ext_equal]
pub struct ListPlace {
    pub actual: Seq<u8>,
    pub rel: Seq<u8>,
}

/// The directory that a call lists.
pub open spec fn list_place(args: Seq<u64>, seen: ListSeen) -> Result<ListPlace, ListAsk> {
    match seen.pinned {
        None => Err(ListAsk::PinDescriptor { fd: args[0] as i32 }),
        Some(Err(errno)) => Err(ListAsk::Answer(Reply::Errno(errno))),
        Some(Ok(fd)) => match fd.actual {
            None => Err(ListAsk::Answer(Reply::Errno(EBADF))),
            Some(told) => {
                let actual = text::lossy_text(told@);
                match seen.branch {
                    None => Err(ListAsk::LookAtDirectory { actual }),
                    Some(branch) => match read::listing_place(branch, seen.upper@, actual) {
                        Err(reply) => Err(ListAsk::Answer(reply)),
                        Ok(rel) => match seen.is_known {
                            None => Err(ListAsk::LookForTask),
                            Some(false) => Err(ListAsk::Answer(Reply::Continue)),
                            Some(true) => Ok(ListPlace { actual, rel }),
                        },
                    },
                }
            },
        },
    }
}

/// What is left of a listing.
pub open spec fn cache_view(cache: Option<DirectoryCache>) -> Option<(Seq<u8>, Seq<Seq<u8>>)> {
    match cache {
        Some(held) => Some((held.target@, path::byte_views(held.entries@))),
        None => None,
    }
}

/// The records that are handed out from: those that are left of the directory, or
/// those that were merged for it now.
pub open spec fn list_records(
    place: ListPlace,
    seen: ListSeen,
    cache: Option<(Seq<u8>, Seq<Seq<u8>>)>,
) -> Result<Seq<Seq<u8>>, ListAsk> {
    match cache {
        Some((target, left)) if target == place.actual => if left.len() == 0 {
            Err(ListAsk::Answer(Reply::Value(0)))
        } else {
            Ok(left)
        },
        _ => match seen.names {
            None => Err(ListAsk::Merge { rel: place.rel }),
            Some(None) => Err(ListAsk::Answer(Reply::Continue)),
            Some(Some(names)) => match seen.built {
                None => Err(ListAsk::Build { records: read::records_of(names@) }),
                Some(built) => Ok(read::made_records(built@)),
            },
        },
    }
}

/// Whether a step and what is left afterwards are those of a listing: as many whole
/// records are handed out as there is room for; a listing whose last record is
/// out ends, and is then forgotten.
pub open spec fn is_listing(
    args: Seq<u64>,
    seen: ListSeen,
    before: Option<(Seq<u8>, Seq<Seq<u8>>)>,
    step: ListAsk,
    after: Option<(Seq<u8>, Seq<Seq<u8>>)>,
) -> bool {
    match list_place(args, seen) {
        Err(ask) => step == ask && after == before,
        Ok(place) => match list_records(place, seen, before) {
            Err(ask) => step == ask && after is None,
            Ok(records) => exists|count: int| #[trigger]
                read::fills(records, count, (args[2] & 0xffff_ffff) as int) && step == (ListAsk::Write {
                    address: args[1],
                    bytes: read::concatenated(records.take(count)),
                }) && after == Some((place.actual, records.skip(count))),
        },
    }
}

fn find_listed(args: &[u64; 6], seen: &ListSeen) -> (result: Result<(Vec<u8>, Vec<u8>), ListDo>)
    ensures
        match (result, list_place(args@, *seen)) {
            (Ok((actual, rel)), Ok(place)) => actual@ == place.actual && rel@ == place.rel,
            (Err(step), Err(ask)) => step@ == ask,
            _ => false,
        },
{
    let actual = match &seen.pinned {
        None => {
            return Err(ListDo::PinDescriptor { fd: args[0] as i32 });
        },
        Some(Err(errno)) => {
            return Err(ListDo::Answer(Reply::Errno(*errno)));
        },
        Some(Ok(fd)) => match &fd.actual {
            None => {
                return Err(ListDo::Answer(Reply::Errno(EBADF)));
            },
            Some(told) => text::lossy(told.as_slice()),
        },
    };
    let rel = match &seen.branch {
        None => {
            return Err(ListDo::LookAtDirectory { actual });
        },
        Some(branch) => match settle_getdents(branch, seen.upper.as_slice(), actual.as_slice()) {
            Err(told) => {
                return Err(ListDo::Answer(told));
            },
            Ok(rel) => rel,
        },
    };
    match seen.is_known {
        None => Err(ListDo::LookForTask),
        Some(false) => Err(ListDo::Answer(Reply::Continue)),
        Some(true) => Ok((actual, rel)),
    }
}

/// Tells what is done next of a listing. `cache` is what is left of the listing
/// through the descriptor.
pub fn handle_cow_getdents(args: &[u64; 6], seen: &ListSeen, cache: &mut Option<DirectoryCache>) -> (step: ListDo)
    ensures
        is_listing(args@, *seen, cache_view(*old(cache)), step@, cache_view(*final(cache))),
{
    let (actual, rel) = match find_listed(args, seen) {
        Ok(found) => found,
        Err(step) => {
            return step;
        },
    };
    let mut held = match check_cache(cache, actual.as_slice()) {
        CacheStep::End => {
            *cache = None;
            return ListDo::Answer(Reply::Value(0));
        },
        CacheStep::Use => match cache.take() {
            Some(held) => held,
            None => {
                return ListDo::Answer(Reply::Continue);
            },
        },
        CacheStep::Build => {
            *cache = None;
            match (&seen.names, &seen.built) {
                (None, _) => {
                    return ListDo::Merge { rel };
                },
                (Some(None), _) => {
                    return ListDo::Answer(Reply::Continue);
                },
                (Some(Some(names)), None) => {
                    return ListDo::Build { records: plan_records(names) };
                },
                (Some(Some(_)), Some(built)) => DirectoryCache { target: actual, entries: keep_records(built) },
            }
        },
    };
    let size: u64 = args[2];
    let room: u64 = size & 0xffff_ffff;
    proof {
        assert(size & 0xffff_ffff <= 0xffff_ffff) by (bit_vector);
    }
    let bytes = held.drain(room as usize);
    *cache = Some(held);
    ListDo::Write { address: args[1], bytes }
}

/// The answer to a listing whose records were written to the task.
pub fn finish_getdents(count: usize, is_written: bool) -> (reply: Reply)
    ensures
        reply == if count > 0 && !is_written {
            Reply::Continue
        } else {
            Reply::Value(count as i64)
        },
{
    if count > 0 && !is_written {
        Reply::Continue
    } else {
        Reply::Value(count as i64)
    }
}

/// One call of a listing: what was known, and what it came to.
pub struct ListCall {
    pub args: Seq<u64>,
    pub seen: ListSeen,
    pub before: Option<(Seq<u8>, Seq<Seq<u8>>)>,
    pub step: ListAsk,
    pub after: Option<(Seq<u8>, Seq<Seq<u8>>)>,
}

/// The room that a call has for records.
pub open spec fn room_of(call: ListCall) -> int {
    (call.args[2] & 0xffff_ffff) as int
}

/// The bytes that a call hands out.
pub open spec fn handed_by(call: ListCall) -> Seq<u8> {
    match call.step {
        ListAsk::Write { bytes, .. } => bytes,
        _ => Seq::empty(),
    }
}

/// The bytes that some calls hand out, one behind the other.
pub open spec fn handed_out(calls: Seq<ListCall>) -> Seq<u8>
    decreases calls.len(),
{
    if calls.len() == 0 {
        Seq::empty()
    } else {
        handed_out(calls.drop_last()) + handed_by(calls.last())
    }
}

/// Whether a call of a listing has room for every record and goes on where the call before
/// stopped; the first begins with all records, and only the last hands nothing out.
pub open spec fn is_call_at(calls: Seq<ListCall>, place: ListPlace, records: Seq<Seq<u8>>, k: int) -> bool {
    let call = calls[k];
    &&& is_listing(call.args, call.seen, call.before, call.step, call.after)
    &&& list_place(call.args, call.seen) == Ok::<ListPlace, ListAsk>(place)
    &&& forall|j: int| 0 <= j < records.len() ==> 0 < (#[trigger] records[j]).len() <= room_of(call)
    &&& handed_by(call).len() == 0 <==> k == calls.len() - 1
    &&& if k == 0 {
        &&& call.before matches Some((target, _)) ==> target != place.actual
        &&& call.seen.names matches Some(Some(_))
        &&& call.seen.built matches Some(built) && read::made_records(built@) == records
    } else {
        call.before == calls[k - 1].after
    }
}

/// Whether calls list a directory from its first record to the first call that hands
/// nothing out.
pub open spec fn is_whole_listing(calls: Seq<ListCall>, place: ListPlace, records: Seq<Seq<u8>>) -> bool {
    calls.len() > 0 && forall|k: int| 0 <= k < calls.len() ==> #[trigger] is_call_at(calls, place, records, k)
}

proof fn lemma_first_record_fits(records: Seq<Seq<u8>>, count: int, room: int)
    requires
        read::fills(records, count, room),
        records.len() > 0,
        records[0].len() <= room,
    ensures
        count > 0,
        read::concatenated(records.take(count)).len() >= records[0].len(),
{
    let one = records.take(1);
    assert(one.drop_last() =~= Seq::<Seq<u8>>::empty());
    assert(read::concatenated(one.drop_last()) =~= Seq::<u8>::empty());
    assert(one.last() == records[0]);
    assert(read::concatenated(one) =~= records[0]);
    if count > 0 {
        lemma_first_of_concatenated(records, count);
    }
}

proof fn lemma_first_of_concatenated(records: Seq<Seq<u8>>, count: int)
    requires
        0 < count <= records.len(),
    ensures
        read::concatenated(records.take(count)).len() >= records[0].len(),
    decreases count,
{
    assert(records.take(count).drop_last() =~= records.take(count - 1));
    if count > 1 {
        lemma_first_of_concatenated(records, count - 1);
    } else {
        assert(records.take(1).last() == records[0]);
    }
}

/// What one call hands out and leaves, where records are left.
proof fn lemma_call_hands_out(call: ListCall, place: ListPlace, records: Seq<Seq<u8>>, before: int) -> (taken: int)
    requires
        is_listing(call.args, call.seen, call.before, call.step, call.after),
        list_place(call.args, call.seen) == Ok::<ListPlace, ListAsk>(place),
        0 <= before <= records.len(),
        list_records(place, call.seen, call.before) == Ok::<Seq<Seq<u8>>, ListAsk>(records.skip(before)),
    ensures
        before <= taken <= records.len(),
        call.after == Some((place.actual, records.skip(taken))),
        call.step is Write,
        read::fills(records.skip(before), taken - before, room_of(call)),
        handed_by(call) == read::concatenated(records.skip(before).take(taken - before)),
        read::concatenated(records.take(before)) + handed_by(call) == read::concatenated(records.take(taken)),
{
    let left = records.skip(before);
    let count = choose|count: int| #[trigger]
        read::fills(left, count, room_of(call)) && call.step == (ListAsk::Write {
            address: call.args[1],
            bytes: read::concatenated(left.take(count)),
        }) && call.after == Some((place.actual, left.skip(count)));
    assert(left.skip(count) =~= records.skip(before + count));
    let whole = records.take(before + count);
    read::law_listing_hands_out_every_record(whole, before);
    assert(whole.take(before) =~= records.take(before));
    assert(whole.skip(before) =~= left.take(count));
    before + count
}

/// How many records were handed out before a call.
proof fn lemma_listed_so_far(calls: Seq<ListCall>, place: ListPlace, records: Seq<Seq<u8>>, n: int) -> (taken: int)
    requires
        is_whole_listing(calls, place, records),
        0 <= n < calls.len(),
    ensures
        0 <= taken <= records.len(),
        n > 0 ==> calls[n].before == Some((place.actual, records.skip(taken))),
        n == 0 ==> taken == 0,
        handed_out(calls.take(n)) == read::concatenated(records.take(taken)),
    decreases n,
{
    assert(is_call_at(calls, place, records, n));
    if n == 0 {
        assert(calls.take(0) =~= Seq::<ListCall>::empty());
        assert(records.take(0) =~= Seq::<Seq<u8>>::empty());
        0
    } else {
        let before = lemma_listed_so_far(calls, place, records, n - 1);
        let call = calls[n - 1];
        assert(is_call_at(calls, place, records, n - 1));
        assert(records.skip(0) =~= records);
        assert(list_records(place, call.seen, call.before) == Ok::<Seq<Seq<u8>>, ListAsk>(records.skip(before)));
        let taken = lemma_call_hands_out(call, place, records, before);
        assert(calls.take(n).drop_last() =~= calls.take(n - 1));
        assert(calls.take(n).last() == call);
        taken
    }
}

/// The calls of a listing, up to the one that hands nothing out, hand out every record
/// of the directory once, in order; each hands out whole records that fit, and nothing
/// is handed out only when all records are.
pub proof fn law_listings_are_complete(calls: Seq<ListCall>, place: ListPlace, records: Seq<Seq<u8>>)
    requires
        is_whole_listing(calls, place, records),
    ensures
        handed_out(calls) == read::concatenated(records),
        forall|k: int| 0 <= k < calls.len() ==> handed_by(#[trigger] calls[k]).len() <= room_of(calls[k]),
{
    let last = calls.len() - 1;
    let call = calls[last];
    assert forall|k: int| 0 <= k < calls.len() implies handed_by(#[trigger] calls[k]).len() <= room_of(calls[k]) by {
        assert(is_call_at(calls, place, records, k));
        assert(calls[k].args[2] & 0xffff_ffff >= 0);
    }
    assert(is_call_at(calls, place, records, last));
    assert(calls.drop_last() =~= calls.take(last));
    let taken = lemma_listed_so_far(calls, place, records, last);
    let left = records.skip(taken);
    assert(records.skip(0) =~= records);
    if left.len() > 0 {
        assert(left[0] == records[taken]);
        assert(list_records(place, call.seen, call.before) == Ok::<Seq<Seq<u8>>, ListAsk>(left));
        let after = lemma_call_hands_out(call, place, records, taken);
        lemma_first_record_fits(left, after - taken, room_of(call));
    }
    assert(records.take(taken) =~= records);
    assert(handed_out(calls) =~= read::concatenated(records));
}

/// A path that the branch has claimed and in which it has nothing is missing for
/// the task: the kernel, which still has the lower file, is not asked.
pub proof fn law_deleted_files_stay_hidden(call: StatCall, args: Seq<u64>, seen: ReadSeen, look: BranchLook)
    requires
        seen.look == Some(look),
        look.actual is None,
        read::stat_target(
            read::stat_request(call, args).dirfd,
            read::stat_request(call, args).allows_empty,
            read::stat_request(call, args).path_address,
            read_written(seen),
        ) is Path,
        looked_path(read::stat_request(call, args).dirfd, read::stat_request(call, args).path_address, 0, seen) is Ok,
    ensures
        stat_ask(call, args, seen) == answer(Reply::Errno(ENOENT)),
        forall|exec: ExecCall, with: Seq<u64>|
            looked_path(exec_request(exec, with).dirfd, exec_request(exec, with).path, 0, seen) is Ok
                ==> #[trigger] exec_ask(exec, with, seen) == answer(Reply::Errno(ENOENT)),
{
}

} // verus!
