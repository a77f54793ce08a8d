//! Numbers of the Linux interface.

use vstd::prelude::*;

verus! {

pub const EPERM: i32 = 1;

pub const ENOENT: i32 = 2;

pub const ESRCH: i32 = 3;

pub const EINTR: i32 = 4;

pub const EIO: i32 = 5;

pub const E2BIG: i32 = 7;

pub const EBADF: i32 = 9;

pub const EAGAIN: i32 = 11;

pub const ENOMEM: i32 = 12;

pub const EACCES: i32 = 13;

pub const EFAULT: i32 = 14;

pub const EEXIST: i32 = 17;

pub const EXDEV: i32 = 18;

pub const ENOTDIR: i32 = 20;

pub const EINVAL: i32 = 22;

pub const EMFILE: i32 = 24;

pub const ENOTTY: i32 = 25;

pub const ENOSPC: i32 = 28;

pub const ERANGE: i32 = 34;

pub const ENOSYS: i32 = 38;

pub const ELOOP: i32 = 40;

pub const EOPNOTSUPP: i32 = 95;

pub const EAFNOSUPPORT: i32 = 97;

/// The directory descriptor that stands for the working directory.
pub const AT_FDCWD: i32 = -100;

pub const AT_SYMLINK_NOFOLLOW: u64 = 0x100;

pub const AT_REMOVEDIR: u64 = 0x200;

pub const AT_SYMLINK_FOLLOW: u64 = 0x400;

pub const AT_EMPTY_PATH: u64 = 0x1000;

pub const RESOLVE_NO_SYMLINKS: u64 = 0x04;

pub const RESOLVE_BENEATH: u64 = 0x08;

pub const RESOLVE_IN_ROOT: u64 = 0x10;

/// Every flag that a resolution may have.
pub const KNOWN_RESOLVE_FLAGS: u64 = 0x3f;

pub const O_ACCMODE: u64 = 0o3;

pub const O_WRONLY: u64 = 0o1;

pub const O_RDWR: u64 = 0o2;

pub const O_CREAT: u64 = 0o100;

pub const O_EXCL: u64 = 0o200;

pub const O_TRUNC: u64 = 0o1000;

pub const O_APPEND: u64 = 0o2000;

pub const O_CLOEXEC: u64 = 0o2000000;

pub const O_PATH: u64 = 0o10000000;

/// The flags of an open that may write: `O_WRONLY`, `O_RDWR`, `O_CREAT`,
/// `O_TRUNC` and `O_APPEND`.
pub const WRITE_FLAGS: u64 = 0o3103;

pub const R_OK: u64 = 4;

pub const W_OK: u64 = 2;

pub const X_OK: u64 = 1;

/// The type bits of a file mode.
pub const S_IFMT: u32 = 0o170000;

pub const S_IFDIR: u32 = 0o040000;

pub const S_IFCHR: u32 = 0o020000;

/// The permission of the owner to read.
pub const OWNER_READ: u32 = 0o400;

/// The permission of the owner to execute or to search.
pub const OWNER_EXECUTE: u32 = 0o100;

} // verus!
