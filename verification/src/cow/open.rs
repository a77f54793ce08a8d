//! Opening files through a branch.
//!
//! An open goes through three phases: what the branch makes of it is settled
//! while the branch is locked; a file that is to be changed is copied up; then
//! the file is opened inside its layer. From the moment on at which the branch
//! has claimed the path no answer lets the kernel open it by its old name.

use crate::byte_order;
use crate::byte_order::{read_u64, ByteOrder};
use crate::cow::paths;
use crate::cow::paths::apply_umask;
use crate::cow::Reply;
use crate::path::{bytes_equal, copy_bytes};
use crate::sys::{
    AT_FDCWD, E2BIG, EAGAIN, EEXIST, EINVAL, EIO, ELOOP, ENOENT, ENOSPC, EXDEV, KNOWN_RESOLVE_FLAGS, O_ACCMODE,
    O_CLOEXEC, O_CREAT, O_EXCL, O_PATH, O_WRONLY, OWNER_EXECUTE, OWNER_READ, RESOLVE_BENEATH, RESOLVE_NO_SYMLINKS,
    WRITE_FLAGS,
};
use vstd::prelude::*;

verus! {

/// The calls that open a file.
#[derive(Clone, Copy, Debug, PartialEq, Eq, Structural)]
pub enum OpenCall {
    /// `open(path, flags, mode)`.
    Open,
    /// `openat(dirfd, path, flags, mode)`.
    OpenAt,
    /// `openat2(dirfd, path, how, size)`.
    OpenAt2,
}

/// The least size of the structure that says how to open a file.
pub const OPEN_HOW_SIZE: usize = 24;

/// The greatest size that the structure may have.
pub const OPEN_HOW_LIMIT: usize = 4096;

/// What an open asks for.
#[derive(Clone, Copy, Debug, PartialEq, Eq, Structural)]
pub struct OpenRequest {
    pub path_address: u64,
    pub dirfd: i64,
    pub flags: u64,
    pub mode: u64,
    pub resolve: u64,
}

/// The size of the structure that says how to open a file, or the error of it.
pub fn open_how_size(size: u64) -> (result: Result<usize, i32>)
    ensures
        result == if size < OPEN_HOW_SIZE {
            Err::<usize, i32>(EINVAL)
        } else if size > OPEN_HOW_LIMIT {
            Err::<usize, i32>(E2BIG)
        } else {
            Ok::<usize, i32>(size as usize)
        },
{
    if size < OPEN_HOW_SIZE as u64 {
        return Err(EINVAL);
    }
    if size > OPEN_HOW_LIMIT as u64 {
        return Err(E2BIG);
    }
    Ok(size as usize)
}

/// Whether every byte from a place on is zero.
pub open spec fn zero_from(bytes: Seq<u8>, from: int) -> bool {
    forall|i: int| from <= i < bytes.len() ==> bytes[i] == 0
}

/// What an open with a structure asks for: three numbers, and nothing behind them.
pub open spec fn how_request(args: Seq<u64>, how: Seq<u8>, order: ByteOrder) -> Result<OpenRequest, i32> {
    if zero_from(how, OPEN_HOW_SIZE as int) {
        Ok(
            OpenRequest {
                path_address: args[1],
                dirfd: args[0] as i64,
                flags: byte_order::u64_in(how.subrange(0, 8), order),
                mode: byte_order::u64_in(how.subrange(8, 16), order),
                resolve: byte_order::u64_in(how.subrange(16, 24), order),
            },
        )
    } else {
        Err(E2BIG)
    }
}

/// What a plain open asks for.
pub open spec fn plain_request(call: OpenCall, args: Seq<u64>) -> OpenRequest {
    if call is Open {
        OpenRequest {
            path_address: args[0],
            dirfd: AT_FDCWD as i64,
            flags: args[1],
            mode: args[2],
            resolve: 0,
        }
    } else {
        OpenRequest {
            path_address: args[1],
            dirfd: args[0] as i64,
            flags: args[2],
            mode: args[3],
            resolve: 0,
        }
    }
}

/// Reads what a plain open asks for.
pub fn parse_open(call: OpenCall, args: &[u64; 6]) -> (request: OpenRequest)
    ensures
        request == plain_request(call, args@),
{
    if call == OpenCall::Open {
        OpenRequest {
            path_address: args[0],
            dirfd: AT_FDCWD as i64,
            flags: args[1],
            mode: args[2],
            resolve: 0,
        }
    } else {
        OpenRequest { path_address: args[1], dirfd: args[0] as i64, flags: args[2], mode: args[3], resolve: 0 }
    }
}

/// Reads what an open with a structure asks for.
pub fn parse_open_how(args: &[u64; 6], how: &[u8], order: ByteOrder) -> (result: Result<OpenRequest, i32>)
    requires
        how@.len() >= OPEN_HOW_SIZE,
    ensures
        result == how_request(args@, how@, order),
{
    let mut i: usize = OPEN_HOW_SIZE;
    while i < how.len()
        invariant
            OPEN_HOW_SIZE <= i <= how@.len(),
            forall|j: int| OPEN_HOW_SIZE <= j < i ==> how@[j] == 0,
        decreases how@.len() - i,
    {
        if how[i] != 0 {
            return Err(E2BIG);
        }
        i = i + 1;
    }
    let flags = read_u64(vstd::slice::slice_subrange(how, 0, 8), order);
    let mode = read_u64(vstd::slice::slice_subrange(how, 8, 16), order);
    let resolve = read_u64(vstd::slice::slice_subrange(how, 16, 24), order);
    Ok(OpenRequest { path_address: args[1], dirfd: args[0] as i64, flags, mode, resolve })
}

/// What a branch says of a path that is to be opened.
pub struct ResolutionFacts {
    /// Whether the path belongs to the branch.
    pub matches: bool,
    /// Whether a symbolic link stands on the way.
    pub uses_symlink: bool,
    /// Whether an absolute symbolic link stands on the way.
    pub uses_absolute_symlink: bool,
    /// For a bounded path: where it leads without leaving its directory.
    pub bounded: Option<Result<Vec<u8>, i32>>,
}

/// Where a bounded path leads: a path that is to be made need not be there.
pub open spec fn bounded_target(flags: u64, input: Seq<u8>, bounded: Result<Vec<u8>, i32>) -> Result<Seq<u8>, i32> {
    match bounded {
        Ok(found) => Ok(found@),
        Err(errno) => if flags & O_CREAT != 0 && errno == ENOENT {
            Ok(input)
        } else {
            Err(errno)
        },
    }
}

/// The path that an open goes to, or the answer that ends it.
pub open spec fn resolution_of(request: OpenRequest, input: Seq<u8>, facts: ResolutionFacts) -> Result<
    Seq<u8>,
    Reply,
> {
    if !facts.matches {
        Err(Reply::Continue)
    } else if request.resolve & !KNOWN_RESOLVE_FLAGS != 0 {
        Err(Reply::Errno(EINVAL))
    } else if request.resolve & RESOLVE_NO_SYMLINKS != 0 && facts.uses_symlink {
        Err(Reply::Errno(ELOOP))
    } else if request.resolve & RESOLVE_BENEATH != 0 && facts.uses_absolute_symlink {
        Err(Reply::Errno(EXDEV))
    } else {
        match facts.bounded {
            None => Ok(input),
            Some(bounded) => match bounded_target(request.flags, input, bounded) {
                Ok(target) => Ok(target),
                Err(errno) => Err(Reply::Errno(errno)),
            },
        }
    }
}

/// Settles the path that an open goes to.
pub fn settle_resolution(request: OpenRequest, input: &[u8], facts: &ResolutionFacts) -> (result: Result<
    Vec<u8>,
    Reply,
>)
    ensures
        match resolution_of(request, input@, *facts) {
            Ok(target) => result matches Ok(found) && found@ == target,
            Err(reply) => result == Err::<Vec<u8>, Reply>(reply),
        },
{
    if !facts.matches {
        return Err(Reply::Continue);
    }
    if request.resolve & !KNOWN_RESOLVE_FLAGS != 0 {
        return Err(Reply::Errno(EINVAL));
    }
    if request.resolve & RESOLVE_NO_SYMLINKS != 0 && facts.uses_symlink {
        return Err(Reply::Errno(ELOOP));
    }
    if request.resolve & RESOLVE_BENEATH != 0 && facts.uses_absolute_symlink {
        return Err(Reply::Errno(EXDEV));
    }
    match &facts.bounded {
        None => Ok(copy_bytes(input)),
        Some(Ok(found)) => Ok(copy_bytes(found.as_slice())),
        Some(Err(errno)) => {
            if request.flags & O_CREAT != 0 && *errno == ENOENT {
                Ok(copy_bytes(input))
            } else {
                Err(Reply::Errno(*errno))
            }
        },
    }
}

/// The permissions that opening a directory needs.
pub open spec fn leaf_permissions(flags: u64, is_directory: bool) -> u32 {
    if !is_directory || flags & O_PATH != 0 {
        0
    } else if flags & O_ACCMODE != O_WRONLY {
        OWNER_EXECUTE | OWNER_READ
    } else {
        OWNER_EXECUTE
    }
}

/// The permissions that opening a directory needs.
pub fn open_leaf_bits(flags: u64, is_directory: bool) -> (bits: u32)
    ensures
        bits == leaf_permissions(flags, is_directory),
{
    if !is_directory || flags & O_PATH != 0 {
        0
    } else if flags & O_ACCMODE != O_WRONLY {
        OWNER_EXECUTE | OWNER_READ
    } else {
        OWNER_EXECUTE
    }
}

/// What a branch says of the path that an open goes to.
#[derive(Clone, Copy, Debug)]
pub struct AccessFacts {
    /// Whether the permissions that are needed are there.
    pub access: Result<(), i32>,
    /// Whether the parent of a new entry can take it.
    pub parent: Result<(), i32>,
    /// Whether reading must go through the branch.
    pub needs_read_intercept: bool,
}

/// Whether an open may write.
pub open spec fn may_write(flags: u64) -> bool {
    flags & WRITE_FLAGS != 0
}

/// The answer that ends an open before the branch plans it.
pub open spec fn access_reply(flags: u64, facts: AccessFacts) -> Option<Reply> {
    match facts.access {
        Err(errno) => Some(Reply::Errno(errno)),
        Ok(_) => if flags & O_CREAT != 0 && facts.parent is Err {
            Some(Reply::Errno(facts.parent->Err_0))
        } else if !may_write(flags) && !facts.needs_read_intercept {
            Some(Reply::Continue)
        } else {
            None
        },
    }
}

/// Checks the access of an open: a read that the branch does not touch goes to
/// the kernel.
pub fn check_open_access(flags: u64, facts: AccessFacts) -> (reply: Option<Reply>)
    ensures
        reply == access_reply(flags, facts),
{
    match facts.access {
        Err(errno) => {
            return Some(Reply::Errno(errno));
        },
        Ok(_) => {},
    }
    if flags & O_CREAT != 0 {
        match facts.parent {
            Err(errno) => {
                return Some(Reply::Errno(errno));
            },
            Ok(_) => {},
        }
    }
    if flags & WRITE_FLAGS == 0 && !facts.needs_read_intercept {
        return Some(Reply::Continue);
    }
    None
}

/// What can go wrong in a branch.
#[derive(Clone, Copy, Debug, PartialEq, Eq, Structural)]
pub enum BranchFault {
    QuotaExceeded,
    Exists,
    Deleted,
    Denied,
    Other,
}

/// What a branch plans for an open.
pub enum OpenPlan {
    /// The branch has nothing to do with it.
    Skip,
    /// The path is deleted in the branch.
    Deleted,
    /// The file is there to be opened.
    Resolved(Vec<u8>),
    /// The file of the upper layer is there or is to be made.
    UpperReady { upper: Vec<u8>, create_candidate: bool },
    /// The file is to be copied up first.
    NeedsCopy { upper: Vec<u8>, rel: Vec<u8>, file_size: u64 },
}

/// The answer to a fault of planning an open.
pub open spec fn plan_errno(fault: BranchFault) -> i32 {
    match fault {
        BranchFault::QuotaExceeded => ENOSPC,
        BranchFault::Exists => EEXIST,
        BranchFault::Deleted => ENOENT,
        _ => EIO,
    }
}

/// The answer to a fault of planning an open.
pub fn plan_fault(fault: BranchFault) -> (errno: i32)
    ensures
        errno == plan_errno(fault),
{
    match fault {
        BranchFault::QuotaExceeded => ENOSPC,
        BranchFault::Exists => EEXIST,
        BranchFault::Deleted => ENOENT,
        BranchFault::Denied | BranchFault::Other => EIO,
    }
}

/// The mode that a file is opened with: a new one gets what is asked for
/// without the mask of the process.
pub open spec fn creation_mode(flags: u64, mode: u64, umask: Option<u32>) -> u32 {
    if flags & O_CREAT != 0 {
        paths::masked_mode(mode as u32, umask)
    } else {
        (mode & 0o7777) as u32
    }
}

/// The mode that a file is opened with.
pub fn create_mode(flags: u64, mode: u64, umask: Option<u32>) -> (masked: u32)
    ensures
        masked == creation_mode(flags, mode, umask),
{
    if flags & O_CREAT != 0 {
        apply_umask(mode as u32, umask)
    } else {
        (mode & 0o7777) as u32
    }
}

/// Checks, right before a bounded path is opened, that it still leads where it
/// led when the open was planned.
pub fn revalidate(
    flags: u64,
    has_branch: bool,
    input: &[u8],
    expected: &[u8],
    bounded: &Result<Vec<u8>, i32>,
) -> (reply: Option<Reply>)
    ensures
        reply == if !has_branch {
            Some(Reply::Errno(EIO))
        } else {
            match bounded_target(flags, input@, *bounded) {
                Err(errno) => Some(Reply::Errno(errno)),
                Ok(target) => if target == expected@ {
                    None
                } else {
                    Some(Reply::Errno(EAGAIN))
                },
            }
        },
{
    if !has_branch {
        return Some(Reply::Errno(EIO));
    }
    let same = match bounded {
        Ok(found) => bytes_equal(found.as_slice(), expected),
        Err(errno) => {
            if flags & O_CREAT != 0 && *errno == ENOENT {
                bytes_equal(input, expected)
            } else {
                return Some(Reply::Errno(*errno));
            }
        },
    };
    if same {
        None
    } else {
        Some(Reply::Errno(EAGAIN))
    }
}

/// The flags of opening a file that need not be new.
pub open spec fn ordinary_flags(flags: u64) -> i32 {
    (flags & !O_EXCL) as i32
}

/// Whether an open first tries to make its file.
pub open spec fn tries_creation(flags: u64, create_candidate: bool) -> bool {
    create_candidate && flags & O_CREAT != 0
}

/// The flags of the first try to open a file, and whether that try must make
/// it.
pub fn first_attempt(flags: u64, create_candidate: bool) -> (attempt: (i32, bool))
    ensures
        attempt.1 == tries_creation(flags, create_candidate),
        attempt.0 == if tries_creation(flags, create_candidate) {
            ordinary_flags(flags) | (O_CREAT as i32) | (O_EXCL as i32)
        } else {
            ordinary_flags(flags)
        },
{
    let ordinary = (flags & !O_EXCL) as i32;
    if create_candidate && flags & O_CREAT != 0 {
        (ordinary | O_CREAT as i32 | O_EXCL as i32, true)
    } else {
        (ordinary, false)
    }
}

/// What follows from a try to open a file.
#[derive(Clone, Copy, Debug, PartialEq, Eq, Structural)]
pub enum AfterOpen {
    /// The file is open; whether it is new.
    Opened { created: bool },
    /// It is there already: it is opened as it is, with these flags.
    Retry { flags: i32 },
    Failed(i32),
}

/// Settles the first try to open a file.
pub fn after_first_attempt(flags: u64, exclusive: bool, opened: Result<(), i32>) -> (next: AfterOpen)
    ensures
        next == match opened {
            Ok(_) => AfterOpen::Opened { created: exclusive },
            Err(errno) => if exclusive && errno == EEXIST && flags & O_EXCL == 0 {
                AfterOpen::Retry { flags: ordinary_flags(flags) }
            } else {
                AfterOpen::Failed(errno)
            },
        },
{
    match opened {
        Ok(_) => AfterOpen::Opened { created: exclusive },
        Err(errno) => {
            if exclusive && errno == EEXIST && flags & O_EXCL == 0 {
                AfterOpen::Retry { flags: (flags & !O_EXCL) as i32 }
            } else {
                AfterOpen::Failed(errno)
            }
        },
    }
}

/// Whether the descriptor that a process gets closes on exec.
pub fn closes_on_exec(flags: u64) -> (result: bool)
    ensures
        result == (flags & O_CLOEXEC != 0),
{
    flags & O_CLOEXEC != 0
}

} // verus!
