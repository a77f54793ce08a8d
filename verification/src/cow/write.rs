//! Changing files through a branch.

use crate::cow::open::BranchFault;
use crate::cow::paths;
use crate::cow::paths::{apply_umask, Layers};
use crate::cow::Reply;
use crate::path;
use crate::path::{copy_bytes, path_starts_with};
use crate::sys::{
    AT_FDCWD, AT_REMOVEDIR, AT_SYMLINK_FOLLOW, AT_SYMLINK_NOFOLLOW, EBADF, EEXIST, EIO, ENOENT, ENOSPC, EOPNOTSUPP, EPERM, EXDEV,
};
use vstd::prelude::*;

verus! {

/// The calls that change the tree.
#[derive(Clone, Copy, Debug, PartialEq, Eq, Structural)]
pub enum WriteCall {
    UnlinkAt,
    MkdirAt,
    MknodAt,
    RenameAt2,
    RenameAt,
    SymlinkAt,
    LinkAt,
    FchmodAt,
    FchmodAt2,
    FchownAt,
    Unlink,
    Rmdir,
    Mkdir,
    Mknod,
    Rename,
    Symlink,
    Link,
    Chmod,
    Chown,
    Lchown,
    Truncate,
}

/// The numbers that a machine gives to the calls that change the tree; a
/// machine need not have all of them.
#[derive(Clone, Copy, Debug)]
pub struct WriteNumbers {
    pub unlinkat: Option<i64>,
    pub mkdirat: Option<i64>,
    pub mknodat: Option<i64>,
    pub renameat2: Option<i64>,
    pub renameat: Option<i64>,
    pub symlinkat: Option<i64>,
    pub linkat: Option<i64>,
    pub fchmodat: Option<i64>,
    pub fchmodat2: Option<i64>,
    pub fchownat: Option<i64>,
    pub unlink: Option<i64>,
    pub rmdir: Option<i64>,
    pub mkdir: Option<i64>,
    pub mknod: Option<i64>,
    pub rename: Option<i64>,
    pub symlink: Option<i64>,
    pub link: Option<i64>,
    pub chmod: Option<i64>,
    pub chown: Option<i64>,
    pub lchown: Option<i64>,
    pub truncate: Option<i64>,
}

/// The number of a call.
pub open spec fn number_of(numbers: WriteNumbers, call: WriteCall) -> Option<i64> {
    match call {
        WriteCall::UnlinkAt => numbers.unlinkat,
        WriteCall::MkdirAt => numbers.mkdirat,
        WriteCall::MknodAt => numbers.mknodat,
        WriteCall::RenameAt2 => numbers.renameat2,
        WriteCall::RenameAt => numbers.renameat,
        WriteCall::SymlinkAt => numbers.symlinkat,
        WriteCall::LinkAt => numbers.linkat,
        WriteCall::FchmodAt => numbers.fchmodat,
        WriteCall::FchmodAt2 => numbers.fchmodat2,
        WriteCall::FchownAt => numbers.fchownat,
        WriteCall::Unlink => numbers.unlink,
        WriteCall::Rmdir => numbers.rmdir,
        WriteCall::Mkdir => numbers.mkdir,
        WriteCall::Mknod => numbers.mknod,
        WriteCall::Rename => numbers.rename,
        WriteCall::Symlink => numbers.symlink,
        WriteCall::Link => numbers.link,
        WriteCall::Chmod => numbers.chmod,
        WriteCall::Chown => numbers.chown,
        WriteCall::Lchown => numbers.lchown,
        WriteCall::Truncate => numbers.truncate,
    }
}

fn is_number(number: Option<i64>, nr: i64) -> (same: bool)
    ensures
        same == (number == Some(nr)),
{
    match number {
        Some(known) => known == nr,
        None => false,
    }
}

/// The call that a number stands for.
pub fn write_call(nr: i64, numbers: &WriteNumbers) -> (call: Option<WriteCall>)
    ensures
        match call {
            Some(found) => number_of(*numbers, found) == Some(nr),
            None => forall|other: WriteCall| #[trigger] number_of(*numbers, other) != Some(nr),
        },
{
    if is_number(numbers.unlinkat, nr) {
        return Some(WriteCall::UnlinkAt);
    }
    if is_number(numbers.mkdirat, nr) {
        return Some(WriteCall::MkdirAt);
    }
    if is_number(numbers.mknodat, nr) {
        return Some(WriteCall::MknodAt);
    }
    if is_number(numbers.renameat2, nr) {
        return Some(WriteCall::RenameAt2);
    }
    if is_number(numbers.renameat, nr) {
        return Some(WriteCall::RenameAt);
    }
    if is_number(numbers.symlinkat, nr) {
        return Some(WriteCall::SymlinkAt);
    }
    if is_number(numbers.linkat, nr) {
        return Some(WriteCall::LinkAt);
    }
    if is_number(numbers.fchmodat, nr) {
        return Some(WriteCall::FchmodAt);
    }
    if is_number(numbers.fchmodat2, nr) {
        return Some(WriteCall::FchmodAt2);
    }
    if is_number(numbers.fchownat, nr) {
        return Some(WriteCall::FchownAt);
    }
    if is_number(numbers.unlink, nr) {
        return Some(WriteCall::Unlink);
    }
    if is_number(numbers.rmdir, nr) {
        return Some(WriteCall::Rmdir);
    }
    if is_number(numbers.mkdir, nr) {
        return Some(WriteCall::Mkdir);
    }
    if is_number(numbers.mknod, nr) {
        return Some(WriteCall::Mknod);
    }
    if is_number(numbers.rename, nr) {
        return Some(WriteCall::Rename);
    }
    if is_number(numbers.symlink, nr) {
        return Some(WriteCall::Symlink);
    }
    if is_number(numbers.link, nr) {
        return Some(WriteCall::Link);
    }
    if is_number(numbers.chmod, nr) {
        return Some(WriteCall::Chmod);
    }
    if is_number(numbers.chown, nr) {
        return Some(WriteCall::Chown);
    }
    if is_number(numbers.lchown, nr) {
        return Some(WriteCall::Lchown);
    }
    if is_number(numbers.truncate, nr) {
        return Some(WriteCall::Truncate);
    }
    None
}

/// A path argument: the directory that it is followed from, and where it lies
/// in memory.
#[derive(Clone, Copy, Debug, PartialEq, Eq, Structural)]
pub struct PathArgument {
    pub dirfd: i64,
    pub address: u64,
}

/// A path that is followed from a directory argument.
pub open spec fn at_argument(args: Seq<u64>, dirfd: int, written: int) -> PathArgument {
    PathArgument { dirfd: args[dirfd] as i64, address: args[written] }
}

/// A path that is followed from the working directory.
pub open spec fn cwd_argument(args: Seq<u64>, written: int) -> PathArgument {
    PathArgument { dirfd: AT_FDCWD as i64, address: args[written] }
}

/// The paths that a call names, the one that it takes first.
pub open spec fn path_arguments(call: WriteCall, args: Seq<u64>) -> (PathArgument, Option<PathArgument>) {
    match call {
        WriteCall::UnlinkAt
        | WriteCall::MkdirAt
        | WriteCall::MknodAt
        | WriteCall::FchmodAt
        | WriteCall::FchmodAt2
        | WriteCall::FchownAt => (at_argument(args, 0, 1), None),
        WriteCall::RenameAt2 | WriteCall::RenameAt | WriteCall::LinkAt => (
            at_argument(args, 0, 1),
            Some(at_argument(args, 2, 3)),
        ),
        WriteCall::SymlinkAt => (at_argument(args, 1, 2), None),
        WriteCall::Rename | WriteCall::Link => (cwd_argument(args, 0), Some(cwd_argument(args, 1))),
        WriteCall::Symlink => (cwd_argument(args, 1), None),
        WriteCall::Unlink
        | WriteCall::Rmdir
        | WriteCall::Mkdir
        | WriteCall::Mknod
        | WriteCall::Chmod
        | WriteCall::Chown
        | WriteCall::Lchown
        | WriteCall::Truncate => (cwd_argument(args, 0), None),
    }
}

/// Tells the paths that a call names.
pub fn cow_write_paths(call: WriteCall, args: &[u64; 6]) -> (named: (PathArgument, Option<PathArgument>))
    ensures
        named == path_arguments(call, args@),
{
    match call {
        WriteCall::UnlinkAt
        | WriteCall::MkdirAt
        | WriteCall::MknodAt
        | WriteCall::FchmodAt
        | WriteCall::FchmodAt2
        | WriteCall::FchownAt => (PathArgument { dirfd: args[0] as i64, address: args[1] }, None),
        WriteCall::RenameAt2 | WriteCall::RenameAt | WriteCall::LinkAt => (
            PathArgument { dirfd: args[0] as i64, address: args[1] },
            Some(PathArgument { dirfd: args[2] as i64, address: args[3] }),
        ),
        WriteCall::SymlinkAt => (PathArgument { dirfd: args[1] as i64, address: args[2] }, None),
        WriteCall::Rename | WriteCall::Link => (
            PathArgument { dirfd: AT_FDCWD as i64, address: args[0] },
            Some(PathArgument { dirfd: AT_FDCWD as i64, address: args[1] }),
        ),
        WriteCall::Symlink => (PathArgument { dirfd: AT_FDCWD as i64, address: args[1] }, None),
        WriteCall::Unlink
        | WriteCall::Rmdir
        | WriteCall::Mkdir
        | WriteCall::Mknod
        | WriteCall::Chmod
        | WriteCall::Chown
        | WriteCall::Lchown
        | WriteCall::Truncate => (PathArgument { dirfd: AT_FDCWD as i64, address: args[0] }, None),
    }
}

/// A change of the tree, with its paths as they were resolved.
pub enum CowWriteOp {
    Unlink { path: Vec<u8>, is_dir: bool },
    Mkdir { path: Vec<u8>, permissions: u32 },
    Mknod { path: Vec<u8>, permissions: u32, dev: u64 },
    Rename { old_path: Vec<u8>, new_path: Vec<u8>, flags: u32 },
    Symlink { target: Vec<u8>, linkpath: Vec<u8> },
    Link { old_path: Vec<u8>, new_path: Vec<u8>, follow_old: bool },
    Chmod { path: Vec<u8>, permissions: u32, follow_final: bool },
    Chown { path: Vec<u8>, uid: u32, gid: u32, follow_final: bool },
    Truncate { path: Vec<u8>, length: i64 },
}

/// What a change of the tree is, apart from its paths.
#[derive(Clone, Copy, Debug, PartialEq, Eq, Structural)]
pub enum WriteKind {
    Unlink { is_dir: bool },
    Mkdir { permissions: u32 },
    Mknod { permissions: u32, dev: u64 },
    Rename { flags: u32 },
    Symlink,
    Link { follow_old: bool },
    Chmod { permissions: u32, follow_final: bool },
    Chown { uid: u32, gid: u32, follow_final: bool },
    Truncate { length: i64 },
}

/// What a change of the tree says.
#[verifier::ext_equal]
pub struct WriteView {
    pub kind: WriteKind,
    /// The paths that it changes, in the order in which it names them.
    pub paths: Seq<Seq<u8>>,
    /// What a new symbolic link holds.
    pub target: Option<Seq<u8>>,
}

impl View for CowWriteOp {
    type V = WriteView;

    open spec fn view(&self) -> WriteView {
        match self {
            CowWriteOp::Unlink { path, is_dir } => WriteView {
                kind: WriteKind::Unlink { is_dir: *is_dir },
                paths: seq![path@],
                target: None,
            },
            CowWriteOp::Mkdir { path, permissions } => WriteView {
                kind: WriteKind::Mkdir { permissions: *permissions },
                paths: seq![path@],
                target: None,
            },
            CowWriteOp::Mknod { path, permissions, dev } => WriteView {
                kind: WriteKind::Mknod { permissions: *permissions, dev: *dev },
                paths: seq![path@],
                target: None,
            },
            CowWriteOp::Rename { old_path, new_path, flags } => WriteView {
                kind: WriteKind::Rename { flags: *flags },
                paths: seq![old_path@, new_path@],
                target: None,
            },
            CowWriteOp::Symlink { target, linkpath } => WriteView {
                kind: WriteKind::Symlink,
                paths: seq![linkpath@],
                target: Some(target@),
            },
            CowWriteOp::Link { old_path, new_path, follow_old } => WriteView {
                kind: WriteKind::Link { follow_old: *follow_old },
                paths: seq![old_path@, new_path@],
                target: None,
            },
            CowWriteOp::Chmod { path, permissions, follow_final } => WriteView {
                kind: WriteKind::Chmod { permissions: *permissions, follow_final: *follow_final },
                paths: seq![path@],
                target: None,
            },
            CowWriteOp::Chown { path, uid, gid, follow_final } => WriteView {
                kind: WriteKind::Chown { uid: *uid, gid: *gid, follow_final: *follow_final },
                paths: seq![path@],
                target: None,
            },
            CowWriteOp::Truncate { path, length } => WriteView {
                kind: WriteKind::Truncate { length: *length },
                paths: seq![path@],
                target: None,
            },
        }
    }
}

/// What a call asks for.
pub open spec fn kind_of(call: WriteCall, args: Seq<u64>) -> WriteKind {
    match call {
        WriteCall::UnlinkAt => WriteKind::Unlink { is_dir: args[2] & AT_REMOVEDIR != 0 },
        WriteCall::MkdirAt => WriteKind::Mkdir { permissions: args[2] as u32 },
        WriteCall::MknodAt => WriteKind::Mknod { permissions: args[2] as u32, dev: args[3] },
        WriteCall::RenameAt2 => WriteKind::Rename { flags: args[4] as u32 },
        WriteCall::RenameAt => WriteKind::Rename { flags: 0 },
        WriteCall::SymlinkAt => WriteKind::Symlink,
        WriteCall::LinkAt => WriteKind::Link { follow_old: args[4] & AT_SYMLINK_FOLLOW != 0 },
        WriteCall::FchmodAt => WriteKind::Chmod { permissions: (args[2] & 0o7777) as u32, follow_final: true },
        WriteCall::FchmodAt2 => WriteKind::Chmod {
            permissions: (args[2] & 0o7777) as u32,
            follow_final: args[3] & AT_SYMLINK_NOFOLLOW == 0,
        },
        WriteCall::FchownAt => WriteKind::Chown {
            uid: args[2] as u32,
            gid: args[3] as u32,
            follow_final: args[4] & AT_SYMLINK_NOFOLLOW == 0,
        },
        WriteCall::Unlink => WriteKind::Unlink { is_dir: false },
        WriteCall::Rmdir => WriteKind::Unlink { is_dir: true },
        WriteCall::Mkdir => WriteKind::Mkdir { permissions: args[1] as u32 },
        WriteCall::Mknod => WriteKind::Mknod { permissions: args[1] as u32, dev: args[2] },
        WriteCall::Rename => WriteKind::Rename { flags: 0 },
        WriteCall::Symlink => WriteKind::Symlink,
        WriteCall::Link => WriteKind::Link { follow_old: false },
        WriteCall::Chmod => WriteKind::Chmod { permissions: (args[1] & 0o7777) as u32, follow_final: true },
        WriteCall::Chown => WriteKind::Chown { uid: args[1] as u32, gid: args[2] as u32, follow_final: true },
        WriteCall::Lchown => WriteKind::Chown { uid: args[1] as u32, gid: args[2] as u32, follow_final: false },
        WriteCall::Truncate => WriteKind::Truncate { length: args[1] as i64 },
    }
}

/// What a call asks for.
fn read_kind(call: WriteCall, args: &[u64; 6]) -> (kind: WriteKind)
    ensures
        kind == kind_of(call, args@),
{
    match call {
        WriteCall::UnlinkAt => WriteKind::Unlink { is_dir: args[2] & AT_REMOVEDIR != 0 },
        WriteCall::MkdirAt => WriteKind::Mkdir { permissions: args[2] as u32 },
        WriteCall::MknodAt => WriteKind::Mknod { permissions: args[2] as u32, dev: args[3] },
        WriteCall::RenameAt2 => WriteKind::Rename { flags: args[4] as u32 },
        WriteCall::RenameAt => WriteKind::Rename { flags: 0 },
        WriteCall::SymlinkAt => WriteKind::Symlink,
        WriteCall::LinkAt => WriteKind::Link { follow_old: args[4] & AT_SYMLINK_FOLLOW != 0 },
        WriteCall::FchmodAt => WriteKind::Chmod { permissions: (args[2] & 0o7777) as u32, follow_final: true },
        WriteCall::FchmodAt2 => WriteKind::Chmod {
            permissions: (args[2] & 0o7777) as u32,
            follow_final: args[3] & AT_SYMLINK_NOFOLLOW == 0,
        },
        WriteCall::FchownAt => WriteKind::Chown {
            uid: args[2] as u32,
            gid: args[3] as u32,
            follow_final: args[4] & AT_SYMLINK_NOFOLLOW == 0,
        },
        WriteCall::Unlink => WriteKind::Unlink { is_dir: false },
        WriteCall::Rmdir => WriteKind::Unlink { is_dir: true },
        WriteCall::Mkdir => WriteKind::Mkdir { permissions: args[1] as u32 },
        WriteCall::Mknod => WriteKind::Mknod { permissions: args[1] as u32, dev: args[2] },
        WriteCall::Rename => WriteKind::Rename { flags: 0 },
        WriteCall::Symlink => WriteKind::Symlink,
        WriteCall::Link => WriteKind::Link { follow_old: false },
        WriteCall::Chmod => WriteKind::Chmod { permissions: (args[1] & 0o7777) as u32, follow_final: true },
        WriteCall::Chown => WriteKind::Chown { uid: args[1] as u32, gid: args[2] as u32, follow_final: true },
        WriteCall::Lchown => WriteKind::Chown { uid: args[1] as u32, gid: args[2] as u32, follow_final: false },
        WriteCall::Truncate => WriteKind::Truncate { length: args[1] as i64 },
    }
}

/// Whether a change names two paths.
pub open spec fn names_two(kind: WriteKind) -> bool {
    kind is Rename || kind is Link
}

/// The change that a kind with paths makes; nothing where a path or a target
/// that it needs could not be read.
pub open spec fn op_of(
    kind: WriteKind,
    first: Seq<u8>,
    second: Option<Seq<u8>>,
    target: Option<Seq<u8>>,
) -> Option<WriteView> {
    if names_two(kind) {
        match second {
            Some(other) => Some(WriteView { kind, paths: seq![first, other], target: None }),
            None => None,
        }
    } else if kind is Symlink {
        match target {
            Some(_) => Some(WriteView { kind, paths: seq![first], target }),
            None => None,
        }
    } else {
        Some(WriteView { kind, paths: seq![first], target: None })
    }
}

/// The change that a kind with paths makes.
fn assemble(kind: WriteKind, first: Vec<u8>, second: Option<Vec<u8>>, target: Option<Vec<u8>>) -> (op: Option<
    CowWriteOp,
>)
    ensures
        match op {
            Some(made) => op_of(kind, first@, paths::found_bytes(second), paths::found_bytes(target)) == Some(made@),
            None => op_of(kind, first@, paths::found_bytes(second), paths::found_bytes(target)) is None,
        },
{
    match kind {
        WriteKind::Unlink { is_dir } => Some(CowWriteOp::Unlink { path: first, is_dir }),
        WriteKind::Mkdir { permissions } => Some(CowWriteOp::Mkdir { path: first, permissions }),
        WriteKind::Mknod { permissions, dev } => Some(CowWriteOp::Mknod { path: first, permissions, dev }),
        WriteKind::Rename { flags } => match second {
            Some(new_path) => Some(CowWriteOp::Rename { old_path: first, new_path, flags }),
            None => None,
        },
        WriteKind::Symlink => match target {
            Some(held) => Some(CowWriteOp::Symlink { target: held, linkpath: first }),
            None => None,
        },
        WriteKind::Link { follow_old } => match second {
            Some(new_path) => Some(CowWriteOp::Link { old_path: first, new_path, follow_old }),
            None => None,
        },
        WriteKind::Chmod { permissions, follow_final } => Some(
            CowWriteOp::Chmod { path: first, permissions, follow_final },
        ),
        WriteKind::Chown { uid, gid, follow_final } => Some(
            CowWriteOp::Chown { path: first, uid, gid, follow_final },
        ),
        WriteKind::Truncate { length } => Some(CowWriteOp::Truncate { path: first, length }),
    }
}

/// Reads a change of the tree out of a call, given its resolved paths and, for
/// a symbolic link, what it holds. A new directory gets what is asked for
/// without the mask of the process.
pub fn parse_cow_write(
    call: WriteCall,
    args: &[u64; 6],
    first: Vec<u8>,
    second: Option<Vec<u8>>,
    target: Option<Vec<u8>>,
    umask: Option<u32>,
) -> (op: Option<CowWriteOp>)
    ensures
        match op {
            Some(made) => op_of(
                masked_kind(kind_of(call, args@), umask),
                first@,
                paths::found_bytes(second),
                paths::found_bytes(target),
            ) == Some(made@),
            None => op_of(
                masked_kind(kind_of(call, args@), umask),
                first@,
                paths::found_bytes(second),
                paths::found_bytes(target),
            ) is None,
        },
{
    let kind = match read_kind(call, args) {
        WriteKind::Mkdir { permissions } => WriteKind::Mkdir { permissions: apply_umask(permissions, umask) },
        other => other,
    };
    assemble(kind, first, second, target)
}

/// What a call asks for, after the mask of the process.
pub open spec fn masked_kind(kind: WriteKind, umask: Option<u32>) -> WriteKind {
    match kind {
        WriteKind::Mkdir { permissions } => WriteKind::Mkdir {
            permissions: paths::masked_mode(permissions, umask),
        },
        _ => kind,
    }
}

/// Which paths of a change are followed through a final symbolic link.
pub open spec fn follows_of(kind: WriteKind) -> Seq<bool> {
    match kind {
        WriteKind::Unlink { .. } | WriteKind::Mkdir { .. } | WriteKind::Mknod { .. } | WriteKind::Symlink => seq![
            false,
        ],
        WriteKind::Rename { .. } => seq![false, false],
        WriteKind::Link { follow_old } => seq![follow_old, false],
        WriteKind::Truncate { .. } => seq![true],
        WriteKind::Chmod { follow_final, .. } => seq![follow_final],
        WriteKind::Chown { follow_final, .. } => seq![follow_final],
    }
}

/// The path that a change makes.
pub open spec fn creation_of(op: WriteView) -> Option<Seq<u8>> {
    match op.kind {
        WriteKind::Mkdir { .. } | WriteKind::Mknod { .. } | WriteKind::Symlink => Some(op.paths[0]),
        WriteKind::Link { .. } => Some(op.paths[1]),
        _ => None,
    }
}

/// For a change that works on an entry that is there: the path that must belong
/// to the branch, and the path whose entry is copied up first.
pub open spec fn copy_of(op: WriteView) -> Option<(Seq<u8>, Seq<u8>)> {
    match op.kind {
        WriteKind::Chmod { .. } | WriteKind::Chown { .. } | WriteKind::Truncate { .. } | WriteKind::Rename { .. } => {
            Some((op.paths[0], op.paths[0]))
        },
        WriteKind::Link { .. } => Some((op.paths[1], op.paths[0])),
        _ => None,
    }
}

/// The paths under which the paths of a change are known in its branch.
pub open spec fn remapped(layers: Layers, written: Seq<Seq<u8>>) -> Seq<Seq<u8>> {
    Seq::new(written.len(), |i: int| paths::logical_path(layers.workdir@, layers.upper@, written[i]))
}

impl CowWriteOp {
    /// What the change is, apart from its paths.
    pub fn kind(&self) -> (kind: WriteKind)
        ensures
            kind == self@.kind,
    {
        match self {
            CowWriteOp::Unlink { is_dir, .. } => WriteKind::Unlink { is_dir: *is_dir },
            CowWriteOp::Mkdir { permissions, .. } => WriteKind::Mkdir { permissions: *permissions },
            CowWriteOp::Mknod { permissions, dev, .. } => WriteKind::Mknod { permissions: *permissions, dev: *dev },
            CowWriteOp::Rename { flags, .. } => WriteKind::Rename { flags: *flags },
            CowWriteOp::Symlink { .. } => WriteKind::Symlink,
            CowWriteOp::Link { follow_old, .. } => WriteKind::Link { follow_old: *follow_old },
            CowWriteOp::Chmod { permissions, follow_final, .. } => WriteKind::Chmod {
                permissions: *permissions,
                follow_final: *follow_final,
            },
            CowWriteOp::Chown { uid, gid, follow_final, .. } => WriteKind::Chown {
                uid: *uid,
                gid: *gid,
                follow_final: *follow_final,
            },
            CowWriteOp::Truncate { length, .. } => WriteKind::Truncate { length: *length },
        }
    }

    /// The paths that the change names, in order.
    pub fn paths(&self) -> (named: Vec<Vec<u8>>)
        ensures
            path::byte_views(named@) == self@.paths,
    {
        let mut named: Vec<Vec<u8>> = Vec::new();
        match self {
            CowWriteOp::Unlink { path, .. }
            | CowWriteOp::Mkdir { path, .. }
            | CowWriteOp::Mknod { path, .. }
            | CowWriteOp::Chmod { path, .. }
            | CowWriteOp::Chown { path, .. }
            | CowWriteOp::Truncate { path, .. } => {
                named.push(copy_bytes(path.as_slice()));
            },
            CowWriteOp::Rename { old_path, new_path, .. } | CowWriteOp::Link { old_path, new_path, .. } => {
                named.push(copy_bytes(old_path.as_slice()));
                named.push(copy_bytes(new_path.as_slice()));
            },
            CowWriteOp::Symlink { linkpath, .. } => {
                named.push(copy_bytes(linkpath.as_slice()));
            },
        }
        proof {
            assert(path::byte_views(named@) =~= self@.paths);
        }
        named
    }

    /// Which paths are followed through a final symbolic link: parents always
    /// are, final components as the call has it.
    pub fn follows(&self) -> (follows: Vec<bool>)
        ensures
            follows@ == follows_of(self@.kind),
    {
        let follows = match self.kind() {
            WriteKind::Unlink { .. } | WriteKind::Mkdir { .. } | WriteKind::Mknod { .. } | WriteKind::Symlink => vec![
                false,
            ],
            WriteKind::Rename { .. } => vec![false, false],
            WriteKind::Link { follow_old } => vec![follow_old, false],
            WriteKind::Truncate { .. } => vec![true],
            WriteKind::Chmod { follow_final, .. } => vec![follow_final],
            WriteKind::Chown { follow_final, .. } => vec![follow_final],
        };
        proof {
            assert(follows@ =~= follows_of(self@.kind));
        }
        follows
    }

    /// The same change on other paths.
    pub fn with_paths(self, named: &Vec<Vec<u8>>) -> (op: CowWriteOp)
        requires
            named@.len() == self@.paths.len(),
        ensures
            op@ == (WriteView { paths: path::byte_views(named@), ..self@ }),
    {
        let ghost views = path::byte_views(named@);
        let first = copy_bytes(named[0].as_slice());
        proof {
            assert(first@ == views[0]);
        }
        let op = match self {
            CowWriteOp::Unlink { is_dir, .. } => CowWriteOp::Unlink { path: first, is_dir },
            CowWriteOp::Mkdir { permissions, .. } => CowWriteOp::Mkdir { path: first, permissions },
            CowWriteOp::Mknod { permissions, dev, .. } => CowWriteOp::Mknod { path: first, permissions, dev },
            CowWriteOp::Rename { flags, .. } => CowWriteOp::Rename {
                old_path: first,
                new_path: copy_bytes(named[1].as_slice()),
                flags,
            },
            CowWriteOp::Symlink { target, .. } => CowWriteOp::Symlink { target, linkpath: first },
            CowWriteOp::Link { follow_old, .. } => CowWriteOp::Link {
                old_path: first,
                new_path: copy_bytes(named[1].as_slice()),
                follow_old,
            },
            CowWriteOp::Chmod { permissions, follow_final, .. } => CowWriteOp::Chmod {
                path: first,
                permissions,
                follow_final,
            },
            CowWriteOp::Chown { uid, gid, follow_final, .. } => CowWriteOp::Chown {
                path: first,
                uid,
                gid,
                follow_final,
            },
            CowWriteOp::Truncate { length, .. } => CowWriteOp::Truncate { path: first, length },
        };
        proof {
            assert(op@.paths =~= views);
        }
        op
    }

    /// The same change on the paths under which its paths are known in their
    /// branch.
    pub fn remap_upper_paths(self, layers: &Layers) -> (op: CowWriteOp)
        ensures
            op@ == (WriteView { paths: remapped(*layers, self@.paths), ..self@ }),
    {
        let named = self.paths();
        let ghost views = self@.paths;
        let mut mapped: Vec<Vec<u8>> = Vec::new();
        let mut i: usize = 0;
        while i < named.len()
            invariant
                i <= named@.len(),
                views == path::byte_views(named@),
                mapped@.len() == i,
                forall|j: int| 0 <= j < i ==> (#[trigger] mapped@[j])@ == remapped(*layers, views)[j],
            decreases named@.len() - i,
        {
            proof {
                assert(views[i as int] == named@[i as int]@);
            }
            mapped.push(layers.map_upper_path(named[i].as_slice()));
            i = i + 1;
        }
        proof {
            assert(views.len() == named@.len());
            assert(path::byte_views(mapped@) =~= remapped(*layers, views));
        }
        self.with_paths(&mapped)
    }

    /// The path that the change makes.
    pub fn creation_target(&self) -> (made: Option<Vec<u8>>)
        ensures
            paths::found_bytes(made) == creation_of(self@),
    {
        match self {
            CowWriteOp::Mkdir { path, .. } | CowWriteOp::Mknod { path, .. } => Some(copy_bytes(path.as_slice())),
            CowWriteOp::Symlink { linkpath, .. } => Some(copy_bytes(linkpath.as_slice())),
            CowWriteOp::Link { new_path, .. } => Some(copy_bytes(new_path.as_slice())),
            _ => None,
        }
    }

    /// The path that must belong to the branch, and the path whose entry is
    /// copied up first.
    pub fn copy_rel(&self) -> (result: Option<(Vec<u8>, Vec<u8>)>)
        ensures
            match result {
                Some((matched, copied)) => copy_of(self@) == Some((matched@, copied@)),
                None => copy_of(self@) is None,
            },
    {
        match self {
            CowWriteOp::Chmod { path, .. } | CowWriteOp::Chown { path, .. } | CowWriteOp::Truncate { path, .. } => Some(
                (copy_bytes(path.as_slice()), copy_bytes(path.as_slice())),
            ),
            CowWriteOp::Rename { old_path, .. } => Some(
                (copy_bytes(old_path.as_slice()), copy_bytes(old_path.as_slice())),
            ),
            CowWriteOp::Link { old_path, new_path, .. } => Some(
                (copy_bytes(new_path.as_slice()), copy_bytes(old_path.as_slice())),
            ),
            _ => None,
        }
    }
}

/// What a branch says of one path of a change.
#[derive(Clone, Copy, Debug)]
pub struct PathFacts {
    /// Whether the path belongs to the branch.
    pub matches: bool,
    /// Whether the way to it may be searched.
    pub access: Result<(), i32>,
}

/// What a branch says of a change.
pub struct WriteFacts {
    /// Whether the path that is to be made is there already.
    pub target_exists: bool,
    /// Whether the parent of the path that is to be made can take it.
    pub parent: Result<(), i32>,
    /// Whether the changed entry is a symbolic link.
    pub is_symlink: bool,
    /// The paths of the change, in order.
    pub paths: Vec<PathFacts>,
}

/// The first path that may not be reached.
pub open spec fn first_denied(facts: Seq<PathFacts>) -> Option<i32>
    decreases facts.len(),
{
    if facts.len() == 0 {
        None
    } else if first_denied(facts.drop_last()) is Some {
        first_denied(facts.drop_last())
    } else if facts.last().matches && facts.last().access is Err {
        Some(facts.last().access->Err_0)
    } else {
        None
    }
}

/// The answer that ends a change before anything is copied.
pub open spec fn write_reply(op: WriteView, facts: WriteFacts) -> Option<Reply> {
    if creation_of(op) is Some && facts.target_exists {
        Some(Reply::Errno(EEXIST))
    } else if creation_of(op) is Some && facts.parent is Err {
        Some(Reply::Errno(facts.parent->Err_0))
    } else if (op.kind matches WriteKind::Chmod { follow_final, .. } && !follow_final) && facts.is_symlink {
        Some(Reply::Errno(EOPNOTSUPP))
    } else {
        match first_denied(facts.paths@) {
            Some(errno) => Some(Reply::Errno(errno)),
            None => None,
        }
    }
}

/// Checks a change before anything is copied.
pub fn check_write(op: &CowWriteOp, facts: &WriteFacts) -> (reply: Option<Reply>)
    ensures
        reply == write_reply(op@, *facts),
{
    let creates = match op {
        CowWriteOp::Mkdir { .. }
        | CowWriteOp::Mknod { .. }
        | CowWriteOp::Symlink { .. }
        | CowWriteOp::Link { .. } => true,
        _ => false,
    };
    if creates {
        if facts.target_exists {
            return Some(Reply::Errno(EEXIST));
        }
        match facts.parent {
            Err(errno) => {
                return Some(Reply::Errno(errno));
            },
            Ok(_) => {},
        }
    }
    match op {
        CowWriteOp::Chmod { follow_final, .. } => {
            if !*follow_final && facts.is_symlink {
                return Some(Reply::Errno(EOPNOTSUPP));
            }
        },
        _ => {},
    }
    let mut i: usize = 0;
    let ghost all = facts.paths@;
    while i < facts.paths.len()
        invariant
            i <= facts.paths@.len(),
            all == facts.paths@,
            first_denied(all.take(i as int)) is None,
            op@.kind matches WriteKind::Chmod { follow_final, .. } ==> follow_final || !facts.is_symlink,
            creation_of(op@) is Some ==> !facts.target_exists && facts.parent is Ok,
        decreases facts.paths@.len() - i,
    {
        proof {
            assert(all.take(i as int + 1).drop_last() =~= all.take(i as int));
            assert(all.take(i as int + 1).last() == all[i as int]);
        }
        if facts.paths[i].matches {
            match facts.paths[i].access {
                Err(errno) => {
                    proof {
                        lemma_denied_stays(all, i as int + 1);
                    }
                    return Some(Reply::Errno(errno));
                },
                Ok(_) => {},
            }
        }
        i = i + 1;
    }
    proof {
        assert(all.take(i as int) =~= all);
    }
    None
}

proof fn lemma_denied_stays(facts: Seq<PathFacts>, few: int)
    requires
        0 <= few <= facts.len(),
        first_denied(facts.take(few)) is Some,
    ensures
        first_denied(facts) == first_denied(facts.take(few)),
    decreases facts.len(),
{
    if few < facts.len() {
        assert(facts.drop_last().take(few) =~= facts.take(few));
        lemma_denied_stays(facts.drop_last(), few);
    } else {
        assert(facts.take(few) =~= facts);
    }
}

/// The answer to a copy that cannot be planned.
pub fn copy_fault_reply(fault: BranchFault) -> (reply: Reply)
    ensures
        reply == Reply::Errno(if fault is QuotaExceeded { ENOSPC } else { EIO }),
{
    if fault == BranchFault::QuotaExceeded {
        Reply::Errno(ENOSPC)
    } else {
        Reply::Errno(EIO)
    }
}

/// The answer that ends a change before the branch makes it.
pub open spec fn run_reply(
    op: WriteView,
    has_branch: bool,
    parent: Result<(), i32>,
    first_matches: bool,
    second_matches: bool,
) -> Option<Reply> {
    if !has_branch {
        Some(Reply::Continue)
    } else if creation_of(op) is Some && parent is Err {
        Some(Reply::Errno(parent->Err_0))
    } else if op.kind is Link && first_matches != second_matches {
        Some(Reply::Errno(EXDEV))
    } else if !first_matches {
        Some(Reply::Continue)
    } else {
        None
    }
}

/// Checks a change right before the branch makes it. A hard link with only one
/// name inside the branch is refused.
pub fn check_run(
    op: &CowWriteOp,
    has_branch: bool,
    parent: Result<(), i32>,
    first_matches: bool,
    second_matches: bool,
) -> (reply: Option<Reply>)
    ensures
        reply == run_reply(op@, has_branch, parent, first_matches, second_matches),
{
    if !has_branch {
        return Some(Reply::Continue);
    }
    let creates = match op {
        CowWriteOp::Mkdir { .. }
        | CowWriteOp::Mknod { .. }
        | CowWriteOp::Symlink { .. }
        | CowWriteOp::Link { .. } => true,
        _ => false,
    };
    if creates {
        match parent {
            Err(errno) => {
                return Some(Reply::Errno(errno));
            },
            Ok(_) => {},
        }
    }
    match op {
        CowWriteOp::Link { .. } => {
            if first_matches != second_matches {
                return Some(Reply::Errno(EXDEV));
            }
        },
        _ => {},
    }
    if !first_matches {
        return Some(Reply::Continue);
    }
    None
}

/// The answer to what a branch made of a change.
pub open spec fn change_reply(result: Result<bool, BranchFault>) -> Reply {
    match result {
        Ok(true) => Reply::Value(0),
        Err(BranchFault::QuotaExceeded) => Reply::Errno(ENOSPC),
        Err(BranchFault::Denied) => Reply::Errno(EPERM),
        Err(BranchFault::Deleted) => Reply::Errno(ENOENT),
        Err(BranchFault::Exists) | Ok(false) => Reply::Errno(EEXIST),
        Err(_) => Reply::Errno(EIO),
    }
}

/// Tells the answer to what a branch made of a change.
pub fn cow_result(result: Result<bool, BranchFault>) -> (reply: Reply)
    ensures
        reply == change_reply(result),
{
    match result {
        Ok(true) => Reply::Value(0),
        Ok(false) => Reply::Errno(EEXIST),
        Err(fault) => match fault {
            BranchFault::QuotaExceeded => Reply::Errno(ENOSPC),
            BranchFault::Denied => Reply::Errno(EPERM),
            BranchFault::Deleted => Reply::Errno(ENOENT),
            BranchFault::Exists => Reply::Errno(EEXIST),
            BranchFault::Other => Reply::Errno(EIO),
        },
    }
}

/// The answer to what a branch made of removing or renaming an entry.
pub open spec fn removal_reply(result: Result<bool, i32>) -> Reply {
    match result {
        Ok(true) => Reply::Value(0),
        Ok(false) => Reply::Errno(EIO),
        Err(errno) => Reply::Errno(errno),
    }
}

/// Tells the answer to what a branch made of removing or renaming an entry.
pub fn unlink_result(result: Result<bool, i32>) -> (reply: Reply)
    ensures
        reply == removal_reply(result),
{
    match result {
        Ok(done) => {
            if done {
                Reply::Value(0)
            } else {
                Reply::Errno(EIO)
            }
        },
        Err(errno) => Reply::Errno(errno),
    }
}

/// Once a branch has claimed a change, no answer hands it to the kernel.
pub proof fn law_claimed_changes_never_reach_the_lower(
    op: WriteView,
    parent: Result<(), i32>,
    second_matches: bool,
    changed: Result<bool, BranchFault>,
    removed: Result<bool, i32>,
)
    ensures
        run_reply(op, true, parent, true, second_matches) != Some(Reply::Continue),
        change_reply(changed) != Reply::Continue,
        removal_reply(removed) != Reply::Continue,
{
}

/// A hard link never joins a name inside a branch with one outside of it.
pub proof fn law_links_stay_on_one_side(op: WriteView, parent: Result<(), i32>, old_matches: bool, new_matches: bool)
    requires
        op.kind is Link,
        old_matches != new_matches,
    ensures
        run_reply(op, true, parent, old_matches, new_matches) matches Some(Reply::Errno(_)),
{
}

/// What was seen of a descriptor whose metadata is to change.
pub struct PinnedFd {
    /// The path of the file, where it is known.
    pub actual: Option<Vec<u8>>,
}

/// What a branch is, as far as descriptors go.
pub struct BranchFacts {
    pub layers: Layers,
    pub snapshot_backed: bool,
}

/// The answer to changing the metadata of a descriptor: a file of an immutable
/// lower is not changed through one.
pub open spec fn fd_metadata_reply(pinned: Result<PinnedFd, i32>, branch: Option<BranchFacts>) -> Reply {
    match pinned {
        Err(errno) => Reply::Errno(errno),
        Ok(fd) => match fd.actual {
            None => Reply::Errno(EBADF),
            Some(actual) => match branch {
                Some(facts) if facts.snapshot_backed && path::starts_with(
                    path::parts(actual@),
                    path::parts(facts.layers.workdir@),
                ) => Reply::Errno(EPERM),
                _ => Reply::Continue,
            },
        },
    }
}

/// Tells the answer to changing the metadata of a descriptor.
pub fn check_fd_metadata(pinned: &Result<PinnedFd, i32>, branch: &Option<BranchFacts>) -> (reply: Reply)
    ensures
        reply == fd_metadata_reply(*pinned, *branch),
{
    let actual = match pinned {
        Err(errno) => {
            return Reply::Errno(*errno);
        },
        Ok(fd) => match &fd.actual {
            None => {
                return Reply::Errno(EBADF);
            },
            Some(actual) => actual,
        },
    };
    match branch {
        Some(facts) => {
            if facts.snapshot_backed && path_starts_with(actual.as_slice(), facts.layers.workdir.as_slice()) {
                Reply::Errno(EPERM)
            } else {
                Reply::Continue
            }
        },
        None => Reply::Continue,
    }
}

/// The metadata of a file in the lower of a snapshot-backed branch is never
/// changed through a descriptor.
pub proof fn law_snapshot_lowers_keep_their_metadata(actual: Vec<u8>, facts: BranchFacts)
    requires
        facts.snapshot_backed,
        path::starts_with(path::parts(actual@), path::parts(facts.layers.workdir@)),
    ensures
        fd_metadata_reply(Ok(PinnedFd { actual: Some(actual) }), Some(facts)) == Reply::Errno(EPERM),
{
}

} // verus!
