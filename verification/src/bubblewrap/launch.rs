//! The arguments of a launch: the mounts from the outside in, the masks over what
//! is denied, and the bootstrap with the command behind it.

use crate::bootstrap;
use crate::bootstrap::{
    command_is_plain, COMMAND_FOLLOWS, CONTROL_FD, EXEC_STATUS_FD, FILTER_FD, FOREGROUND, KEEP_FD, READY_FD, YES,
};
use crate::bubblewrap;
use crate::bubblewrap::{open_entry, LaunchFault, SourceOutcome};
use crate::filesystem_backend;
use crate::filesystem_backend::{FilesystemEntry, MountAccess};
use crate::path;
use crate::path::{append_bytes, copy_bytes, holds_byte};
use crate::text;
use crate::text::{decimal, signed_decimal};
use vstd::prelude::*;
use vstd::string::*;

verus! {

pub const LAUNCHER: &'static str = "bwrap";

pub const UNSHARE_USER: &'static str = "--unshare-user";

pub const DIE_WITH_PARENT: &'static str = "--die-with-parent";

pub const TMPFS: &'static str = "--tmpfs";

pub const ROOT: &'static str = "/";

pub const UID: &'static str = "--uid";

pub const GID: &'static str = "--gid";

pub const RO_BIND: &'static str = "--ro-bind";

pub const BIND: &'static str = "--bind";

pub const DEV_BIND: &'static str = "--dev-bind";

pub const PROC_FD: &'static str = "/proc/self/fd/";

pub const MOUNT_PROC: &'static str = "--proc";

pub const PROC_ROOT: &'static str = "/proc";

pub const BOOTSTRAP_DESTINATION: &'static str = "/.sandlock-bootstrap";

pub const REMOUNT_RO: &'static str = "--remount-ro";

pub const CHDIR: &'static str = "--chdir";

pub const CAP_DROP: &'static str = "--cap-drop";

pub const CAP_ADD: &'static str = "--cap-add";

pub const CAP_ALL: &'static str = "ALL";

pub const CAP_SYS_ADMIN: &'static str = "CAP_SYS_ADMIN";

pub const CAP_SETPCAP: &'static str = "CAP_SETPCAP";

pub const NO: &'static str = "0";

pub const SESSION_DOMAIN: &'static str = "--session-domain";

/// A launch that is being put together.
#[derive(Debug)]
pub struct Launch {
    pub argv: Vec<Vec<u8>>,
    /// The devices that the command may read, as it sees them.
    pub read_devices: Vec<Vec<u8>>,
    /// The descriptors that the launcher needs.
    pub inherited: Vec<i32>,
}

/// What a launch holds.
#[verifier::ext_equal]
pub struct LaunchView {
    pub argv: Seq<Seq<u8>>,
    pub read_devices: Seq<Seq<u8>>,
    pub inherited: Seq<i32>,
}

impl View for Launch {
    type V = LaunchView;

    open spec fn view(&self) -> LaunchView {
        LaunchView {
            argv: path::byte_views(self.argv@),
            read_devices: path::byte_views(self.read_devices@),
            inherited: self.inherited@,
        }
    }
}

/// A descriptor as a path of the process that holds it.
pub open spec fn fd_path(fd: i32) -> Seq<u8> {
    PROC_FD.spec_bytes() + text::signed_digits(fd as int)
}

/// The arguments that mount a descriptor at a path.
pub open spec fn mount_args(option: Seq<u8>, fd: i32, guest: Seq<u8>) -> Seq<Seq<u8>> {
    seq![option, fd_path(fd), guest]
}

/// The arguments that a launch starts with.
pub open spec fn start_args(user: Option<(u32, u32)>) -> Seq<Seq<u8>> {
    let start = seq![
        LAUNCHER.spec_bytes(),
        UNSHARE_USER.spec_bytes(),
        DIE_WITH_PARENT.spec_bytes(),
        TMPFS.spec_bytes(),
        ROOT.spec_bytes(),
    ];
    match user {
        Some((uid, gid)) => start + seq![
            UID.spec_bytes(),
            text::decimal_digits(uid as int),
            GID.spec_bytes(),
            text::decimal_digits(gid as int),
        ],
        None => start,
    }
}

/// The option that mounts with an access.
pub open spec fn bind_option(access: MountAccess) -> Seq<u8> {
    match access {
        MountAccess::ReadOnly => RO_BIND.spec_bytes(),
        MountAccess::ReadWrite => BIND.spec_bytes(),
        MountAccess::DeviceReadOnly | MountAccess::DeviceReadWrite => DEV_BIND.spec_bytes(),
    }
}

/// What a look at a device that may only be read told.
#[derive(Clone, Copy, Debug, PartialEq, Eq, Structural)]
pub enum DeviceLook {
    Supported,
    Unsupported,
    Unreadable,
}

/// Why an entry cannot be mounted.
pub open spec fn entry_fault(
    entry: filesystem_backend::PlanEntry,
    outcome: SourceOutcome,
    device: DeviceLook,
) -> Option<LaunchFault> {
    match outcome {
        SourceOutcome::Failed => Some(LaunchFault::Open),
        SourceOutcome::NotFound => if bubblewrap::is_optional(entry) {
            None
        } else {
            Some(LaunchFault::Open)
        },
        SourceOutcome::Opened(_) => if entry.guest_path.contains(0u8) {
            Some(LaunchFault::NulByte)
        } else if entry.access == MountAccess::DeviceReadOnly && device == DeviceLook::Unreadable {
            Some(LaunchFault::DeviceUnreadable)
        } else if entry.access == MountAccess::DeviceReadOnly && device == DeviceLook::Unsupported {
            Some(LaunchFault::DeviceKind)
        } else {
            None
        },
    }
}

/// A launch with one more entry.
pub open spec fn with_entry(
    launch: LaunchView,
    entry: filesystem_backend::PlanEntry,
    outcome: SourceOutcome,
) -> LaunchView {
    match outcome {
        SourceOutcome::Opened(fd) => LaunchView {
            argv: launch.argv + mount_args(bind_option(entry.access), fd, entry.guest_path),
            read_devices: if entry.access == MountAccess::DeviceReadOnly {
                launch.read_devices.push(entry.guest_path)
            } else {
                launch.read_devices
            },
            inherited: launch.inherited.push(fd),
        },
        _ => launch,
    }
}

/// A launch with a descriptor mounted for reading.
pub open spec fn with_read_only(launch: LaunchView, fd: i32, guest: Seq<u8>) -> LaunchView {
    LaunchView {
        argv: launch.argv + mount_args(RO_BIND.spec_bytes(), fd, guest),
        read_devices: launch.read_devices,
        inherited: launch.inherited.push(fd),
    }
}

/// A launch with further arguments.
pub open spec fn with_args(launch: LaunchView, args: Seq<Seq<u8>>) -> LaunchView {
    LaunchView { argv: launch.argv + args, ..launch }
}

/// The directory that a command starts in: the first that is named, or the root.
pub open spec fn start_directory(
    cwd: Option<Seq<u8>>,
    shown_workdir: Option<Seq<u8>>,
    workdir: Option<Seq<u8>>,
) -> Seq<u8> {
    match (cwd, shown_workdir, workdir) {
        (Some(dir), _, _) => dir,
        (None, Some(dir), _) => dir,
        (None, None, Some(dir)) => dir,
        (None, None, None) => ROOT.spec_bytes(),
    }
}

/// The arguments that end the mounts: the root can no longer be written, and only
/// where devices are read does the bootstrap hold capabilities.
pub open spec fn settle_args(has_devices: bool, directory: Seq<u8>) -> Seq<Seq<u8>> {
    let settled = seq![REMOUNT_RO.spec_bytes(), ROOT.spec_bytes(), CHDIR.spec_bytes(), directory];
    if has_devices {
        settled + seq![
            CAP_DROP.spec_bytes(),
            CAP_ALL.spec_bytes(),
            CAP_ADD.spec_bytes(),
            CAP_SYS_ADMIN.spec_bytes(),
            CAP_ADD.spec_bytes(),
            CAP_SETPCAP.spec_bytes(),
        ]
    } else {
        settled
    }
}

/// The descriptors that the bootstrap is told of.
#[derive(Clone, Copy, Debug, PartialEq, Eq, Structural)]
pub struct BootstrapFds {
    pub filter: i32,
    pub control: i32,
    pub ready: i32,
    pub exec_status: i32,
}

/// A flag with a descriptor behind it.
pub open spec fn fd_args(flag: Seq<u8>, fd: i32) -> Seq<Seq<u8>> {
    seq![flag, text::signed_digits(fd as int)]
}

/// The arguments that keep further descriptors.
pub open spec fn keep_args(fds: Seq<i32>) -> Seq<Seq<u8>>
    decreases fds.len(),
{
    if fds.len() == 0 {
        Seq::empty()
    } else {
        keep_args(fds.drop_last()) + fd_args(KEEP_FD.spec_bytes(), fds.last())
    }
}

/// The options of the bootstrap.
pub open spec fn bootstrap_options(
    fds: BootstrapFds,
    foreground: bool,
    session_domain: bool,
    extra: Seq<i32>,
) -> Seq<Seq<u8>> {
    fd_args(FILTER_FD.spec_bytes(), fds.filter) + fd_args(CONTROL_FD.spec_bytes(), fds.control) + fd_args(
        READY_FD.spec_bytes(),
        fds.ready,
    ) + fd_args(EXEC_STATUS_FD.spec_bytes(), fds.exec_status) + seq![
        FOREGROUND.spec_bytes(),
        if foreground {
            YES.spec_bytes()
        } else {
            NO.spec_bytes()
        },
    ] + (if session_domain {
        seq![SESSION_DOMAIN.spec_bytes(), YES.spec_bytes()]
    } else {
        Seq::empty()
    }) + keep_args(extra)
}

/// What the bootstrap is told: its options, then the command.
pub open spec fn bootstrap_args(
    fds: BootstrapFds,
    foreground: bool,
    session_domain: bool,
    extra: Seq<i32>,
    command: Seq<Seq<u8>>,
) -> Seq<Seq<u8>> {
    bootstrap_options(fds, foreground, session_domain, extra) + seq![COMMAND_FOLLOWS.spec_bytes()] + command
}

fn push_word(words: &mut Vec<Vec<u8>>, word: &[u8])
    ensures
        path::byte_views(final(words)@) == path::byte_views(old(words)@).push(word@),
{
    let ghost before = path::byte_views(words@);
    words.push(copy_bytes(word));
    proof {
        assert(path::byte_views(words@) =~= before.push(word@));
    }
}

fn write_fd_path(fd: i32) -> (bytes: Vec<u8>)
    ensures
        bytes@ == fd_path(fd),
{
    let mut bytes = copy_bytes(PROC_FD.as_bytes());
    let number = signed_decimal(fd);
    append_bytes(&mut bytes, number.as_slice());
    bytes
}

fn push_mount(words: &mut Vec<Vec<u8>>, option: &[u8], fd: i32, guest: &[u8])
    ensures
        path::byte_views(final(words)@) == path::byte_views(old(words)@) + mount_args(option@, fd, guest@),
{
    let ghost before = path::byte_views(words@);
    push_word(words, option);
    let source = write_fd_path(fd);
    push_word(words, source.as_slice());
    push_word(words, guest);
    proof {
        assert(path::byte_views(words@) =~= before + mount_args(option@, fd, guest@));
    }
}

fn push_fd(words: &mut Vec<Vec<u8>>, flag: &[u8], fd: i32)
    ensures
        path::byte_views(final(words)@) == path::byte_views(old(words)@) + fd_args(flag@, fd),
{
    let ghost before = path::byte_views(words@);
    push_word(words, flag);
    let number = signed_decimal(fd);
    push_word(words, number.as_slice());
    proof {
        assert(path::byte_views(words@) =~= before + fd_args(flag@, fd));
    }
}

impl Launch {
    /// Starts a launch, for a user where one is named.
    pub fn start(user: Option<(u32, u32)>) -> (launch: Launch)
        ensures
            launch@ == (LaunchView {
                argv: start_args(user),
                read_devices: Seq::empty(),
                inherited: Seq::empty(),
            }),
    {
        let mut argv: Vec<Vec<u8>> = Vec::new();
        proof {
            assert(path::byte_views(argv@) =~= Seq::<Seq<u8>>::empty());
        }
        push_word(&mut argv, LAUNCHER.as_bytes());
        push_word(&mut argv, UNSHARE_USER.as_bytes());
        push_word(&mut argv, DIE_WITH_PARENT.as_bytes());
        push_word(&mut argv, TMPFS.as_bytes());
        push_word(&mut argv, ROOT.as_bytes());
        match user {
            Some((uid, gid)) => {
                push_word(&mut argv, UID.as_bytes());
                let number = decimal(uid as u64);
                push_word(&mut argv, number.as_slice());
                push_word(&mut argv, GID.as_bytes());
                let number = decimal(gid as u64);
                push_word(&mut argv, number.as_slice());
            },
            None => {},
        }
        let launch = Launch { argv, read_devices: Vec::new(), inherited: Vec::new() };
        proof {
            assert(launch@.argv =~= start_args(user));
            assert(launch@.read_devices =~= Seq::<Seq<u8>>::empty());
        }
        launch
    }

    /// Mounts an entry, or leaves it out where that is allowed.
    pub fn add_entry(&mut self, entry: &FilesystemEntry, outcome: SourceOutcome, device: DeviceLook) -> (result: Result<
        (),
        LaunchFault,
    >)
        ensures
            match entry_fault(entry@, outcome, device) {
                Some(fault) => result == Err::<(), LaunchFault>(fault) && final(self)@ == old(self)@,
                None => result is Ok && final(self)@ == with_entry(old(self)@, entry@, outcome),
            },
    {
        let ghost before = self@;
        match open_entry(entry, outcome) {
            Err(fault) => Err(fault),
            Ok(None) => Ok(()),
            Ok(Some(fd)) => {
                let guest = entry.guest_path.as_slice();
                if holds_byte(guest, 0) {
                    return Err(LaunchFault::NulByte);
                }
                let reads_device = entry.access == MountAccess::DeviceReadOnly;
                if reads_device && device == DeviceLook::Unreadable {
                    return Err(LaunchFault::DeviceUnreadable);
                }
                if reads_device && device == DeviceLook::Unsupported {
                    return Err(LaunchFault::DeviceKind);
                }
                let option = match entry.access {
                    MountAccess::ReadOnly => RO_BIND,
                    MountAccess::ReadWrite => BIND,
                    MountAccess::DeviceReadOnly => DEV_BIND,
                    MountAccess::DeviceReadWrite => DEV_BIND,
                };
                push_mount(&mut self.argv, option.as_bytes(), fd, guest);
                if reads_device {
                    push_word(&mut self.read_devices, guest);
                }
                self.inherited.push(fd);
                proof {
                    assert(self@ =~= with_entry(before, entry@, outcome));
                }
                Ok(())
            },
        }
    }

    /// Mounts the process filesystem.
    pub fn add_proc(&mut self)
        ensures
            final(self)@ == with_args(old(self)@, seq![MOUNT_PROC.spec_bytes(), PROC_ROOT.spec_bytes()]),
    {
        let ghost before = self@;
        push_word(&mut self.argv, MOUNT_PROC.as_bytes());
        push_word(&mut self.argv, PROC_ROOT.as_bytes());
        proof {
            assert(self@ =~= with_args(before, seq![MOUNT_PROC.spec_bytes(), PROC_ROOT.spec_bytes()]));
        }
    }

    /// Covers a denied path with an empty mask that cannot be written.
    pub fn add_mask(&mut self, denied: &[u8], mask: i32) -> (result: Result<(), LaunchFault>)
        ensures
            if denied@.contains(0u8) {
                result == Err::<(), LaunchFault>(LaunchFault::NulByte) && final(self)@ == old(self)@
            } else {
                result is Ok && final(self)@ == with_read_only(old(self)@, mask, denied@)
            },
    {
        let ghost before = self@;
        if holds_byte(denied, 0) {
            return Err(LaunchFault::NulByte);
        }
        push_mount(&mut self.argv, RO_BIND.as_bytes(), mask, denied);
        self.inherited.push(mask);
        proof {
            assert(self@ =~= with_read_only(before, mask, denied@));
        }
        Ok(())
    }

    /// Mounts the bootstrap.
    pub fn add_bootstrap(&mut self, fd: i32)
        ensures
            final(self)@ == with_read_only(old(self)@, fd, BOOTSTRAP_DESTINATION.spec_bytes()),
    {
        let ghost before = self@;
        push_mount(&mut self.argv, RO_BIND.as_bytes(), fd, BOOTSTRAP_DESTINATION.as_bytes());
        self.inherited.push(fd);
        proof {
            assert(self@ =~= with_read_only(before, fd, BOOTSTRAP_DESTINATION.spec_bytes()));
        }
    }

    /// Ends the mounts and names the directory that the command starts in.
    pub fn settle(&mut self, cwd: &Option<Vec<u8>>, shown_workdir: &Option<Vec<u8>>, workdir: &Option<Vec<u8>>) -> (result:
        Result<(), LaunchFault>)
        ensures
            ({
                let directory = start_directory(
                    filesystem_backend::optional(*cwd),
                    filesystem_backend::optional(*shown_workdir),
                    filesystem_backend::optional(*workdir),
                );
                if directory.contains(0u8) {
                    result == Err::<(), LaunchFault>(LaunchFault::NulByte) && final(self)@ == old(self)@
                } else {
                    result is Ok && final(self)@ == with_args(
                        old(self)@,
                        settle_args(old(self)@.read_devices.len() > 0, directory),
                    )
                }
            }),
    {
        let ghost before = self@;
        let directory = match (cwd, shown_workdir, workdir) {
            (Some(dir), _, _) => copy_bytes(dir.as_slice()),
            (None, Some(dir), _) => copy_bytes(dir.as_slice()),
            (None, None, Some(dir)) => copy_bytes(dir.as_slice()),
            (None, None, None) => copy_bytes(ROOT.as_bytes()),
        };
        if holds_byte(directory.as_slice(), 0) {
            return Err(LaunchFault::NulByte);
        }
        push_word(&mut self.argv, REMOUNT_RO.as_bytes());
        push_word(&mut self.argv, ROOT.as_bytes());
        push_word(&mut self.argv, CHDIR.as_bytes());
        push_word(&mut self.argv, directory.as_slice());
        if self.read_devices.len() > 0 {
            push_word(&mut self.argv, CAP_DROP.as_bytes());
            push_word(&mut self.argv, CAP_ALL.as_bytes());
            push_word(&mut self.argv, CAP_ADD.as_bytes());
            push_word(&mut self.argv, CAP_SYS_ADMIN.as_bytes());
            push_word(&mut self.argv, CAP_ADD.as_bytes());
            push_word(&mut self.argv, CAP_SETPCAP.as_bytes());
        }
        proof {
            assert(self@.argv =~= before.argv + settle_args(before.read_devices.len() > 0, directory@));
        }
        Ok(())
    }

    /// Names the bootstrap and the command; tells which descriptors are passed on.
    pub fn finish(
        &mut self,
        fds: BootstrapFds,
        foreground: bool,
        session_domain: bool,
        extra: &Vec<i32>,
        command: &Vec<Vec<u8>>,
    ) -> (result: Result<Vec<i32>, LaunchFault>)
        ensures
            if bootstrap::some_nul(path::byte_views(command@)) {
                result == Err::<Vec<i32>, LaunchFault>(LaunchFault::NulByte) && final(self)@ == old(self)@
            } else {
                &&& final(self)@ == (LaunchView {
                    inherited: old(self)@.inherited.push(fds.filter),
                    ..with_args(
                        old(self)@,
                        seq![BOOTSTRAP_DESTINATION.spec_bytes()] + bootstrap_args(
                            fds,
                            foreground,
                            session_domain,
                            extra@,
                            path::byte_views(command@),
                        ),
                    )
                })
                &&& result matches Ok(passed) && passed@ == old(self)@.inherited + seq![
                    fds.filter,
                    fds.control,
                    fds.ready,
                    fds.exec_status,
                ] + extra@
            },
    {
        let ghost before = self@;
        let ghost words = path::byte_views(command@);
        if !command_is_plain(command) {
            return Err(LaunchFault::NulByte);
        }
        push_word(&mut self.argv, BOOTSTRAP_DESTINATION.as_bytes());
        let ghost named = before.argv.push(BOOTSTRAP_DESTINATION.spec_bytes());
        push_fd(&mut self.argv, FILTER_FD.as_bytes(), fds.filter);
        push_fd(&mut self.argv, CONTROL_FD.as_bytes(), fds.control);
        push_fd(&mut self.argv, READY_FD.as_bytes(), fds.ready);
        push_fd(&mut self.argv, EXEC_STATUS_FD.as_bytes(), fds.exec_status);
        push_word(&mut self.argv, FOREGROUND.as_bytes());
        push_word(
            &mut self.argv,
            if foreground {
                YES.as_bytes()
            } else {
                NO.as_bytes()
            },
        );
        if session_domain {
            push_word(&mut self.argv, SESSION_DOMAIN.as_bytes());
            push_word(&mut self.argv, YES.as_bytes());
        }
        let ghost short = bootstrap_options(fds, foreground, session_domain, Seq::empty());
        proof {
            assert(path::byte_views(self.argv@) =~= named + short);
        }
        let mut k: usize = 0;
        proof {
            assert(extra@.take(0) =~= Seq::<i32>::empty());
        }
        while k < extra.len()
            invariant
                k <= extra@.len(),
                path::byte_views(self.argv@) == named + bootstrap_options(
                    fds,
                    foreground,
                    session_domain,
                    extra@.take(k as int),
                ),
                path::byte_views(self.read_devices@) == before.read_devices,
                self.inherited@ == before.inherited,
            decreases extra@.len() - k,
        {
            let ghost now = path::byte_views(self.argv@);
            push_fd(&mut self.argv, KEEP_FD.as_bytes(), extra[k]);
            proof {
                let few = extra@.take(k as int);
                let more = extra@.take(k as int + 1);
                assert(more.drop_last() =~= few);
                assert(more.last() == extra@[k as int]);
                assert(now + fd_args(KEEP_FD.spec_bytes(), extra@[k as int]) =~= named + bootstrap_options(
                    fds,
                    foreground,
                    session_domain,
                    more,
                ));
            }
            k = k + 1;
        }
        proof {
            assert(extra@.take(k as int) =~= extra@);
        }
        push_word(&mut self.argv, COMMAND_FOLLOWS.as_bytes());
        let ghost options = bootstrap_options(fds, foreground, session_domain, extra@);
        let ghost told = (named + options).push(COMMAND_FOLLOWS.spec_bytes());
        let mut n: usize = 0;
        proof {
            assert(told + words.take(0) =~= told);
        }
        while n < command.len()
            invariant
                n <= command@.len(),
                words == path::byte_views(command@),
                path::byte_views(self.argv@) == told + words.take(n as int),
                path::byte_views(self.read_devices@) == before.read_devices,
                self.inherited@ == before.inherited,
            decreases command@.len() - n,
        {
            push_word(&mut self.argv, command[n].as_slice());
            proof {
                assert(words[n as int] == command@[n as int]@);
                assert((told + words.take(n as int)).push(words[n as int]) =~= told + words.take(n as int + 1));
            }
            n = n + 1;
        }
        self.inherited.push(fds.filter);
        let mut passed: Vec<i32> = Vec::new();
        let mut m: usize = 0;
        while m < self.inherited.len()
            invariant
                m <= self.inherited@.len(),
                passed@ == self.inherited@.take(m as int),
            decreases self.inherited@.len() - m,
        {
            passed.push(self.inherited[m]);
            proof {
                assert(self.inherited@.take(m as int + 1) =~= self.inherited@.take(m as int).push(
                    self.inherited@[m as int],
                ));
            }
            m = m + 1;
        }
        passed.push(fds.control);
        passed.push(fds.ready);
        passed.push(fds.exec_status);
        let ghost fixed = passed@;
        let mut q: usize = 0;
        while q < extra.len()
            invariant
                q <= extra@.len(),
                passed@ == fixed + extra@.take(q as int),
            decreases extra@.len() - q,
        {
            passed.push(extra[q]);
            proof {
                assert((fixed + extra@.take(q as int)).push(extra@[q as int]) =~= fixed + extra@.take(q as int + 1));
            }
            q = q + 1;
        }
        proof {
            assert(words.take(n as int) =~= words);
            assert(extra@.take(q as int) =~= extra@);
            assert(passed@ =~= before.inherited + seq![fds.filter, fds.control, fds.ready, fds.exec_status] + extra@);
            assert(self@.argv =~= before.argv + (seq![BOOTSTRAP_DESTINATION.spec_bytes()] + bootstrap_args(
                fds,
                foreground,
                session_domain,
                extra@,
                words,
            )));
        }
        Ok(passed)
    }
}

proof fn lemma_flags_differ()
    ensures
        FILTER_FD.spec_bytes() != COMMAND_FOLLOWS.spec_bytes(),
        CONTROL_FD.spec_bytes() != COMMAND_FOLLOWS.spec_bytes(),
        CONTROL_FD.spec_bytes() != FILTER_FD.spec_bytes(),
        READY_FD.spec_bytes() != COMMAND_FOLLOWS.spec_bytes(),
        READY_FD.spec_bytes() != FILTER_FD.spec_bytes(),
        READY_FD.spec_bytes() != CONTROL_FD.spec_bytes(),
        EXEC_STATUS_FD.spec_bytes() != COMMAND_FOLLOWS.spec_bytes(),
        EXEC_STATUS_FD.spec_bytes() != FILTER_FD.spec_bytes(),
        EXEC_STATUS_FD.spec_bytes() != CONTROL_FD.spec_bytes(),
        EXEC_STATUS_FD.spec_bytes() != READY_FD.spec_bytes(),
        FOREGROUND.spec_bytes() != COMMAND_FOLLOWS.spec_bytes(),
        FOREGROUND.spec_bytes() != FILTER_FD.spec_bytes(),
        FOREGROUND.spec_bytes() != CONTROL_FD.spec_bytes(),
        FOREGROUND.spec_bytes() != READY_FD.spec_bytes(),
        FOREGROUND.spec_bytes() != EXEC_STATUS_FD.spec_bytes(),
        KEEP_FD.spec_bytes() != COMMAND_FOLLOWS.spec_bytes(),
        KEEP_FD.spec_bytes() != FILTER_FD.spec_bytes(),
        KEEP_FD.spec_bytes() != CONTROL_FD.spec_bytes(),
        KEEP_FD.spec_bytes() != READY_FD.spec_bytes(),
        KEEP_FD.spec_bytes() != EXEC_STATUS_FD.spec_bytes(),
        KEEP_FD.spec_bytes() != FOREGROUND.spec_bytes(),
        YES.spec_bytes() != NO.spec_bytes(),
{
    reveal_strlit("--filter-fd");
    reveal_strlit("--control-fd");
    reveal_strlit("--ready-fd");
    reveal_strlit("--exec-status-fd");
    reveal_strlit("--foreground");
    reveal_strlit("--keep-fd");
    reveal_strlit("--");
    reveal_strlit("1");
    reveal_strlit("0");
    assert(FILTER_FD@.len() == 11 && CONTROL_FD@.len() == 12 && READY_FD@.len() == 10);
    assert(EXEC_STATUS_FD@.len() == 16 && FOREGROUND@.len() == 12 && KEEP_FD@.len() == 9);
    assert(COMMAND_FOLLOWS@.len() == 2);
    assert(FOREGROUND@[2] == 'f' && CONTROL_FD@[2] == 'c');
    assert(YES@[0] == '1' && NO@[0] == '0');
    text::lemma_texts_differ(FILTER_FD@, COMMAND_FOLLOWS@);
    text::lemma_texts_differ(CONTROL_FD@, COMMAND_FOLLOWS@);
    text::lemma_texts_differ(CONTROL_FD@, FILTER_FD@);
    text::lemma_texts_differ(READY_FD@, COMMAND_FOLLOWS@);
    text::lemma_texts_differ(READY_FD@, FILTER_FD@);
    text::lemma_texts_differ(READY_FD@, CONTROL_FD@);
    text::lemma_texts_differ(EXEC_STATUS_FD@, COMMAND_FOLLOWS@);
    text::lemma_texts_differ(EXEC_STATUS_FD@, FILTER_FD@);
    text::lemma_texts_differ(EXEC_STATUS_FD@, CONTROL_FD@);
    text::lemma_texts_differ(EXEC_STATUS_FD@, READY_FD@);
    text::lemma_texts_differ(FOREGROUND@, COMMAND_FOLLOWS@);
    text::lemma_texts_differ(FOREGROUND@, FILTER_FD@);
    text::lemma_texts_differ(FOREGROUND@, CONTROL_FD@);
    text::lemma_texts_differ(FOREGROUND@, READY_FD@);
    text::lemma_texts_differ(FOREGROUND@, EXEC_STATUS_FD@);
    text::lemma_texts_differ(KEEP_FD@, COMMAND_FOLLOWS@);
    text::lemma_texts_differ(KEEP_FD@, FILTER_FD@);
    text::lemma_texts_differ(KEEP_FD@, CONTROL_FD@);
    text::lemma_texts_differ(KEEP_FD@, READY_FD@);
    text::lemma_texts_differ(KEEP_FD@, EXEC_STATUS_FD@);
    text::lemma_texts_differ(KEEP_FD@, FOREGROUND@);
    text::lemma_texts_differ(YES@, NO@);
}

proof fn lemma_fd_reads_back(fd: i32)
    ensures
        bootstrap::fd_value(text::signed_digits(fd as int)) == Ok::<i32, bootstrap::ArgFault>(fd),
{
    text::law_signed_reads_back(fd as int);
}

proof fn lemma_keep_args(extra: Seq<i32>, k: int)
    requires
        0 <= k < extra.len(),
    ensures
        keep_args(extra).len() == 2 * extra.len(),
        keep_args(extra)[2 * k] == KEEP_FD.spec_bytes(),
        keep_args(extra)[2 * k + 1] == text::signed_digits(extra[k] as int),
    decreases extra.len(),
{
    if extra.len() > 1 {
        if k < extra.len() - 1 {
            lemma_keep_args(extra.drop_last(), k);
        } else {
            lemma_keep_args(extra.drop_last(), 0);
        }
    } else {
        assert(extra.drop_last() =~= Seq::<i32>::empty());
        assert(keep_args(extra.drop_last()).len() == 0);
    }
}

proof fn lemma_reads_keeps(args: Seq<Seq<u8>>, at: int, state: bootstrap::Reading, extra: Seq<i32>)
    requires
        at >= 0,
        at + 2 * extra.len() < args.len(),
        forall|k: int|
            0 <= k < extra.len() ==> #[trigger] args[at + 2 * k] == KEEP_FD.spec_bytes() && args[at + 2 * k + 1]
                == text::signed_digits(extra[k] as int),
    ensures
        bootstrap::read_from(args, at, state) == bootstrap::read_from(
            args,
            at + 2 * extra.len(),
            bootstrap::Reading { keep_fds: state.keep_fds + extra, ..state },
        ),
    decreases extra.len(),
{
    if extra.len() == 0 {
        assert(state.keep_fds + extra =~= state.keep_fds);
        assert(bootstrap::Reading { keep_fds: state.keep_fds + extra, ..state } =~= state);
    } else {
        lemma_flags_differ();
        lemma_fd_reads_back(extra[0]);
        assert(args[at + 2 * 0] == KEEP_FD.spec_bytes());
        let next = bootstrap::Reading { keep_fds: state.keep_fds.push(extra[0]), ..state };
        assert(bootstrap::with_option(state, args[at], args[at + 1]) == Ok::<
            bootstrap::Reading,
            bootstrap::ArgFault,
        >(next));
        assert(bootstrap::read_from(args, at, state) == bootstrap::read_from(args, at + 2, next));
        let rest = extra.skip(1);
        assert forall|k: int| 0 <= k < rest.len() implies #[trigger] args[at + 2 + 2 * k] == KEEP_FD.spec_bytes()
            && args[at + 2 + 2 * k + 1] == text::signed_digits(rest[k] as int) by {
            assert(at + 2 * (k + 1) == at + 2 + 2 * k);
            assert(args[at + 2 * (k + 1)] == KEEP_FD.spec_bytes());
        }
        lemma_reads_keeps(args, at + 2, next, rest);
        assert(next.keep_fds + rest =~= state.keep_fds + extra);
    }
}

/// The bootstrap reads out of its arguments what the launch put into them: the
/// descriptors, those to keep, and the command.
pub proof fn law_bootstrap_reads_its_arguments(
    fds: BootstrapFds,
    foreground: bool,
    extra: Seq<i32>,
    command: Seq<Seq<u8>>,
)
    requires
        command.len() > 0,
    ensures
        ({
            let read = bootstrap::Reading {
                filter_fd: Some(fds.filter),
                control_fd: Some(fds.control),
                ready_fd: Some(fds.ready),
                exec_status_fd: Some(fds.exec_status),
                foreground,
                keep_fds: extra,
                command,
            };
            &&& bootstrap::read_from(
                bootstrap_args(fds, foreground, false, extra, command),
                0,
                bootstrap::nothing_read(),
            ) == Ok::<bootstrap::Reading, bootstrap::ArgFault>(read)
            &&& bootstrap::missing(read) is None
        }),
{
    let args = bootstrap_args(fds, foreground, false, extra, command);
    let keeps = keep_args(extra);
    lemma_flags_differ();
    lemma_fd_reads_back(fds.filter);
    lemma_fd_reads_back(fds.control);
    lemma_fd_reads_back(fds.ready);
    lemma_fd_reads_back(fds.exec_status);
    if extra.len() > 0 {
        lemma_keep_args(extra, 0);
    }
    assert(keeps.len() == 2 * extra.len());
    assert(args.len() == 11 + keeps.len() + command.len());
    let none = bootstrap::nothing_read();
    let one = bootstrap::Reading { filter_fd: Some(fds.filter), ..none };
    let two = bootstrap::Reading { control_fd: Some(fds.control), ..one };
    let three = bootstrap::Reading { ready_fd: Some(fds.ready), ..two };
    let four = bootstrap::Reading { exec_status_fd: Some(fds.exec_status), ..three };
    let five = bootstrap::Reading { foreground, ..four };
    assert(bootstrap::read_from(args, 0, none) == bootstrap::read_from(args, 2, one)) by {
        assert(args[0] == FILTER_FD.spec_bytes() && args[1] == text::signed_digits(fds.filter as int));
    }
    assert(bootstrap::read_from(args, 2, one) == bootstrap::read_from(args, 4, two)) by {
        assert(args[2] == CONTROL_FD.spec_bytes() && args[3] == text::signed_digits(fds.control as int));
    }
    assert(bootstrap::read_from(args, 4, two) == bootstrap::read_from(args, 6, three)) by {
        assert(args[4] == READY_FD.spec_bytes() && args[5] == text::signed_digits(fds.ready as int));
    }
    assert(bootstrap::read_from(args, 6, three) == bootstrap::read_from(args, 8, four)) by {
        assert(args[6] == EXEC_STATUS_FD.spec_bytes() && args[7] == text::signed_digits(fds.exec_status as int));
    }
    assert(bootstrap::read_from(args, 8, four) == bootstrap::read_from(args, 10, five)) by {
        assert(args[8] == FOREGROUND.spec_bytes());
        assert(args[9] == if foreground {
            YES.spec_bytes()
        } else {
            NO.spec_bytes()
        });
    }
    assert forall|k: int| 0 <= k < extra.len() implies #[trigger] args[10 + 2 * k] == KEEP_FD.spec_bytes() && args[10 + 2
        * k + 1] == text::signed_digits(extra[k] as int) by {
        lemma_keep_args(extra, k);
        assert(args[10 + 2 * k] == keeps[2 * k]);
        assert(args[10 + 2 * k + 1] == keeps[2 * k + 1]);
    }
    lemma_reads_keeps(args, 10, five, extra);
    let end: int = 10 + 2 * extra.len() as int;
    assert(args[end] == COMMAND_FOLLOWS.spec_bytes());
    assert(args.skip(end + 1) =~= command);
    assert(five.keep_fds + extra =~= extra);
}

/// How an entry is mounted: what may only be read read-only, what may be written for
/// writing, devices as devices, always from the descriptor that was opened for it. The
/// launcher inherits that descriptor, and only devices that may only be read are listed to
/// be checked.
pub proof fn law_entries_are_mounted_as_granted(
    start: LaunchView,
    entry: filesystem_backend::PlanEntry,
    fd: i32,
)
    ensures
        ({
            let after = with_entry(start, entry, SourceOutcome::Opened(fd));
            let option = if entry.access is ReadOnly {
                "--ro-bind".spec_bytes()
            } else if entry.access is ReadWrite {
                "--bind".spec_bytes()
            } else {
                "--dev-bind".spec_bytes()
            };
            &&& after.argv == start.argv + seq![
                option,
                "/proc/self/fd/".spec_bytes() + text::signed_digits(fd as int),
                entry.guest_path,
            ]
            &&& after.inherited == start.inherited.push(fd)
            &&& entry.access is DeviceReadOnly ==> after.read_devices == start.read_devices.push(entry.guest_path)
            &&& !(entry.access is DeviceReadOnly) ==> after.read_devices == start.read_devices
            &&& with_entry(start, entry, SourceOutcome::NotFound) == start
        }),
{
}

/// An entry is refused exactly where its source cannot be opened and is not a missing
/// optional one, where its path holds a zero byte, or where it is a device that may only be
/// read and cannot be looked at or is of another kind.
pub proof fn law_entries_are_refused_for_a_reason(entry: filesystem_backend::PlanEntry, fd: i32, look: DeviceLook)
    ensures
        entry_fault(entry, SourceOutcome::Failed, look) == Some(LaunchFault::Open),
        entry_fault(entry, SourceOutcome::NotFound, look) is None <==> entry.purpose is PolicyGrant && entry.access is ReadOnly,
        entry_fault(entry, SourceOutcome::Opened(fd), look) is None <==> !entry.guest_path.contains(0u8) && (
        entry.access is DeviceReadOnly ==> look is Supported),
        entry.guest_path.contains(0u8) ==> entry_fault(entry, SourceOutcome::Opened(fd), look) == Some(LaunchFault::NulByte),
        !entry.guest_path.contains(0u8) && entry.access is DeviceReadOnly && look is Unsupported ==> entry_fault(
            entry,
            SourceOutcome::Opened(fd),
            look,
        ) == Some(LaunchFault::DeviceKind),
        !entry.guest_path.contains(0u8) && entry.access is DeviceReadOnly && look is Unreadable ==> entry_fault(
            entry,
            SourceOutcome::Opened(fd),
            look,
        ) == Some(LaunchFault::DeviceUnreadable),
{
}

/// A launch starts in namespaces of its own, dies with its parent, on an empty root, as the
/// user that was chosen.
pub proof fn law_launches_start_empty(uid: u32, gid: u32)
    ensures
        start_args(None) == seq![
            "bwrap".spec_bytes(),
            "--unshare-user".spec_bytes(),
            "--die-with-parent".spec_bytes(),
            "--tmpfs".spec_bytes(),
            "/".spec_bytes(),
        ],
        start_args(Some((uid, gid))) == start_args(None) + seq![
            "--uid".spec_bytes(),
            text::decimal_digits(uid as int),
            "--gid".spec_bytes(),
            text::decimal_digits(gid as int),
        ],
{
}

/// The root is made read-only and the command started in its directory: the one that was
/// asked for, else the shown work directory, else the work directory, else the root. Where
/// there are devices to check, all capabilities go but the two that the check needs.
pub proof fn law_launches_settle(
    cwd: Seq<u8>,
    shown_workdir: Option<Seq<u8>>,
    workdir: Option<Seq<u8>>,
    shown: Seq<u8>,
    own: Seq<u8>,
)
    ensures
        start_directory(Some(cwd), shown_workdir, workdir) == cwd,
        start_directory(None, Some(shown), workdir) == shown,
        start_directory(None, None, Some(own)) == own,
        start_directory(None, None, None) == "/".spec_bytes(),
        settle_args(false, cwd) == seq![
            "--remount-ro".spec_bytes(),
            "/".spec_bytes(),
            "--chdir".spec_bytes(),
            cwd,
        ],
        settle_args(true, cwd) == settle_args(false, cwd) + seq![
            "--cap-drop".spec_bytes(),
            "ALL".spec_bytes(),
            "--cap-add".spec_bytes(),
            "CAP_SYS_ADMIN".spec_bytes(),
            "--cap-add".spec_bytes(),
            "CAP_SETPCAP".spec_bytes(),
        ],
{
}

/// What runs behind the mounts is told its descriptors, each behind its option, whether it
/// runs in the foreground, whether its session is a domain, what to keep, and, behind two
/// dashes, the command.
pub proof fn law_bootstraps_are_told_what_to_run(
    fds: BootstrapFds,
    foreground: bool,
    session_domain: bool,
    extra: Seq<i32>,
    last: i32,
    command: Seq<Seq<u8>>,
)
    ensures
        ({
            let options = bootstrap_options(fds, foreground, session_domain, extra);
            &&& options.len() >= 10
            &&& options[0] == "--filter-fd".spec_bytes() && options[1] == text::signed_digits(fds.filter as int)
            &&& options[2] == "--control-fd".spec_bytes() && options[3] == text::signed_digits(fds.control as int)
            &&& options[4] == "--ready-fd".spec_bytes() && options[5] == text::signed_digits(fds.ready as int)
            &&& options[6] == "--exec-status-fd".spec_bytes() && options[7] == text::signed_digits(fds.exec_status as int)
            &&& options[8] == "--foreground".spec_bytes() && options[9] == if foreground {
                "1".spec_bytes()
            } else {
                "0".spec_bytes()
            }
            &&& session_domain ==> options.len() >= 12 && options[10] == "--session-domain".spec_bytes() && options[11]
                == "1".spec_bytes()
            &&& options.skip(
                if session_domain {
                    12int
                } else {
                    10int
                },
            ) == keep_args(extra)
            &&& keep_args(extra.push(last)) == keep_args(extra) + seq![
                "--keep-fd".spec_bytes(),
                text::signed_digits(last as int),
            ]
            &&& keep_args(Seq::empty()) == Seq::<Seq<u8>>::empty()
            &&& bootstrap_args(fds, foreground, session_domain, extra, command) == options + seq!["--".spec_bytes()] + command
        }),
{
    let options = bootstrap_options(fds, foreground, session_domain, extra);
    assert(extra.push(last).drop_last() =~= extra);
    assert(options.skip(
        if session_domain {
            12int
        } else {
            10int
        },
    ) =~= keep_args(extra));
}

} // verus!
