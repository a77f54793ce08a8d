//! What the calls that look at a branch show to the task.

use crate::byte_order;
use crate::byte_order::ByteOrder;
use crate::cow::open::BranchFault;
use crate::cow::paths;
use crate::cow::read;
use crate::cow::read::{AccessCall, NameLook, StatCall};
use crate::cow::reading;
use crate::cow::reading::{BranchLook, ExecCall, HandleFacts, ListAsk, ListSeen, ReadAsk, ReadSeen};
use crate::cow::walk;
use crate::cow::Reply;
use crate::path;
use vstd::prelude::*;

verus! {

/// An answer to a call that looks at a branch.
pub open spec fn shown(reply: Reply) -> ReadAsk {
    ReadAsk::Walk(walk::WalkAsk::Answer(reply))
}

/// Every call without a directory shows what its form with one shows from the working
/// directory: `stat` and `lstat` as `newfstatat` that follows a link and that does not,
/// `access` as `faccessat` and `faccessat2` without flags, `execve` as `execveat`.
pub proof fn law_short_looks_are_their_long_forms(
    a: u64,
    b: u64,
    c: u64,
    d: u64,
    e: u64,
    f: u64,
    cwd: u64,
    seen: ReadSeen,
)
    requires
        cwd as i64 == -100,
    ensures
        reading::stat_ask(StatCall::Stat, seq![a, b, c, d, e, f], seen) == reading::stat_ask(
            StatCall::NewFstatAt,
            seq![cwd, a, b, 0, e, f],
            seen,
        ),
        reading::stat_ask(StatCall::Lstat, seq![a, b, c, d, e, f], seen) == reading::stat_ask(
            StatCall::NewFstatAt,
            seq![cwd, a, b, 0x100, e, f],
            seen,
        ),
        reading::stat_ask(StatCall::Access, seq![a, b, c, d, e, f], seen) == reading::stat_ask(
            StatCall::FaccessAt,
            seq![cwd, a, b, 0, e, f],
            seen,
        ),
        reading::access_ask(AccessCall::Access, seq![a, b, c, d, e, f], seen) == reading::access_ask(
            AccessCall::FaccessAt,
            seq![cwd, a, b, d, e, f],
            seen,
        ),
        reading::access_ask(AccessCall::FaccessAt, seq![a, b, c, d, e, f], seen) == reading::access_ask(
            AccessCall::FaccessAt2,
            seq![a, b, c, 0, e, f],
            seen,
        ),
        reading::exec_ask(ExecCall::Execve, seq![a, b, c, d, e, f], seen) == reading::exec_ask(
            ExecCall::ExecveAt,
            seq![cwd, a, b, c, e, f],
            seen,
        ),
{
    assert(0u64 & 0x100 == 0) by (bit_vector);
    assert(0u64 & 0x1000 == 0) by (bit_vector);
    assert(0x100u64 & 0x100 != 0) by (bit_vector);
    assert(0x100u64 & 0x1000 == 0) by (bit_vector);
}

/// `newfstatat(dirfd, path, statbuf, flags)` reads its path where the call has it, follows
/// a link at its end unless it is told not to, looks at the descriptor itself where the
/// path is empty and the call allows that, and writes to the buffer of the call.
pub proof fn law_stats_ask_for_what_was_written(args: Seq<u64>, seen: ReadSeen)
    requires
        args.len() == 6,
    ensures
        match reading::stat_ask(StatCall::NewFstatAt, args, seen) {
            ReadAsk::Walk(walk::WalkAsk::ReadPath { address }) => address == args[1],
            ReadAsk::Walk(walk::WalkAsk::LookAtBase { dirfd }) => dirfd == (args[0] as i64) as i32,
            ReadAsk::PinCwd => args[3] & 0x1000 != 0 && (args[0] as i64) as i32 == -100,
            ReadAsk::PinDescriptor { fd } => args[3] & 0x1000 != 0 && fd == (args[0] as i64) as i32 && fd != -100,
            ReadAsk::Look { follow, .. } => follow == (args[3] & 0x100 == 0),
            ReadAsk::StatAt { follow, .. } => follow == (args[3] & 0x100 == 0),
            ReadAsk::WriteMode { address, .. } => address == args[2],
            _ => true,
        },
        match reading::access_ask(AccessCall::FaccessAt2, args, seen) {
            ReadAsk::Walk(walk::WalkAsk::ReadPath { address }) => address == args[1],
            ReadAsk::Walk(walk::WalkAsk::LookAtBase { dirfd }) => dirfd == (args[0] as i64) as i32,
            ReadAsk::LookAtKind { follow, .. } => follow == (args[3] & 0x100 == 0),
            _ => true,
        },
        match reading::exec_ask(ExecCall::ExecveAt, args, seen) {
            ReadAsk::Walk(walk::WalkAsk::ReadPath { address }) => address == args[1],
            ReadAsk::Walk(walk::WalkAsk::LookAtBase { dirfd }) => dirfd == (args[0] as i64) as i32,
            ReadAsk::RewriteExec { path, argv, envp, .. } => path == args[1] && argv == args[2] && envp == args[3],
            ReadAsk::Inject { closes_on_exec } => !closes_on_exec,
            ReadAsk::Look { follow, .. } => follow,
            _ => true,
        },
{
}

/// The mode that a task is shown: the kind of file is that of the file, and the
/// permissions are those that the branch keeps, where it keeps some.
pub open spec fn is_shown_mode(shown: u32, mode: u32, kept: Option<u32>) -> bool {
    &&& shown & !0o7777u32 == mode & !0o7777u32
    &&& shown & 0o7777 == match kept {
        Some(permissions) => permissions,
        None => mode & 0o7777,
    }
}

proof fn lemma_shown_mode(mode: u32, kept: Option<u32>)
    requires
        kept matches Some(permissions) ==> permissions <= 0o7777,
    ensures
        is_shown_mode(read::with_logical_mode(mode, kept), mode, kept),
{
    if kept is Some {
        let k = kept->0;
        assert(((mode & !0o7777u32) | k) & !0o7777u32 == mode & !0o7777u32) by (bit_vector)
            requires
                k <= 0o7777u32,
        ;
        assert(((mode & !0o7777u32) | k) & 0o7777 == k) by (bit_vector)
            requires
                k <= 0o7777u32,
        ;
    }
}

/// What the branch says of a path is what `newfstatat` shows: a deleted or missing file is
/// not there; a file that is there is looked at in its layer, and shown with the
/// permissions that the branch keeps for it.
pub proof fn law_stats_show_the_branch(args: Seq<u64>, seen: ReadSeen, look: BranchLook)
    requires
        args.len() == 6,
        reading::stat_ask(StatCall::NewFstatAt, args, ReadSeen { look: None, ..seen }) is Look,
        seen.look == Some(look),
        look.logical_mode matches Some(kept) ==> kept <= 0o7777,
    ensures
        ({
            let ask = reading::stat_ask(StatCall::NewFstatAt, args, seen);
            let layers = seen.walk.layers->0->0;
            match look.actual {
                None => ask == shown(Reply::Errno(2)),
                Some(actual) => match paths::picked_layer(layers.workdir@, layers.upper@, actual@) {
                    None => ask == shown(Reply::Errno(13)),
                    Some((in_upper, rel)) => if !vstd::utf8::valid_utf8(rel) {
                        ask == shown(Reply::Errno(22))
                    } else {
                        match (seen.mode, seen.is_written) {
                            (None, _) => ask is StatAt && ask->StatAt_in_upper == in_upper && ask->StatAt_rel == rel,
                            (Some(Err(errno)), _) => ask == shown(Reply::Errno(errno)),
                            (Some(Ok(mode)), None) => ask is WriteMode && is_shown_mode(
                                ask->WriteMode_mode,
                                mode,
                                look.logical_mode,
                            ),
                            (Some(Ok(_)), Some(true)) => ask == shown(Reply::Value(0)),
                            (Some(Ok(_)), Some(false)) => ask == shown(Reply::Continue),
                        }
                    },
                },
            }
        }),
{
    if seen.mode is Some && seen.mode->0 is Ok {
        lemma_shown_mode(seen.mode->0->Ok_0, look.logical_mode);
    }
}

/// A call that only asks whether a file is there says so, and nothing else: it is there
/// exactly where the branch has it and it can be looked at.
pub proof fn law_existence_is_told(args: Seq<u64>, seen: ReadSeen, look: BranchLook)
    requires
        args.len() == 6,
        reading::stat_ask(StatCall::FaccessAt, args, ReadSeen { look: None, ..seen }) is Look,
        seen.look == Some(look),
        seen.mode is Some,
    ensures
        ({
            let ask = reading::stat_ask(StatCall::FaccessAt, args, seen);
            let layers = seen.walk.layers->0->0;
            let is_there = look.actual matches Some(actual) && (paths::picked_layer(
                layers.workdir@,
                layers.upper@,
                actual@,
            ) matches Some((_, rel)) && vstd::utf8::valid_utf8(rel)) && seen.mode->0 is Ok;
            ask == shown(
                if is_there {
                    Reply::Value(0)
                } else {
                    Reply::Errno(2)
                },
            )
        }),
{
}

/// The open inode of a descriptor is shown where it lies in a layer of the branch, with the
/// permissions that the branch keeps for it; every other one is left to the kernel.
pub proof fn law_descriptors_are_shown(args: Seq<u64>, seen: ReadSeen, handle: Option<HandleFacts>)
    requires
        args.len() == 6,
        reading::fstat_ask(args, ReadSeen { handle: None, ..seen }) is LookAtHandle,
        seen.handle == Some(handle),
        handle matches Some(facts) && facts.logical_mode matches Some(kept) ==> kept <= 0o7777,
    ensures
        ({
            let ask = reading::fstat_ask(args, seen);
            match handle {
                Some(facts) if facts.in_layer => match (seen.mode, seen.is_written) {
                    (None, _) => ask == ReadAsk::StatHandle,
                    (Some(Err(errno)), _) => ask == shown(Reply::Errno(errno)),
                    (Some(Ok(mode)), None) => ask is WriteMode && ask->WriteMode_address == args[1] && is_shown_mode(
                        ask->WriteMode_mode,
                        mode,
                        facts.logical_mode,
                    ),
                    (Some(Ok(_)), Some(true)) => ask == shown(Reply::Value(0)),
                    (Some(Ok(_)), Some(false)) => ask == shown(Reply::Continue),
                },
                _ => ask == shown(Reply::Continue),
            }
        }),
{
    if seen.mode is Some && seen.mode->0 is Ok && handle is Some {
        lemma_shown_mode(seen.mode->0->Ok_0, handle->0.logical_mode);
    }
}

/// A descriptor is pinned by its number; one that is not there, or whose path is not known,
/// fails.
pub proof fn law_pinned_descriptors_are_those_of_the_call(args: Seq<u64>, seen: ReadSeen)
    requires
        args.len() == 6,
    ensures
        seen.pinned is None ==> reading::fstat_ask(args, seen) == (ReadAsk::PinDescriptor { fd: args[0] as i32 }),
        seen.pinned is None ==> reading::fchdir_ask(args, seen) == (ReadAsk::PinDescriptor { fd: args[0] as i32 }),
        seen.pinned is None ==> reading::fd_metadata_ask(args, seen) == (ReadAsk::PinDescriptor { fd: args[0] as i32 }),
        seen.pinned matches Some(Err(errno)) ==> reading::fstat_ask(args, seen) == shown(Reply::Errno(errno))
            && reading::fchdir_ask(args, seen) == shown(Reply::Errno(errno)) && reading::fd_metadata_ask(args, seen)
            == shown(Reply::Errno(errno)),
        seen.pinned matches Some(Ok(fd)) && fd.actual is None ==> reading::fstat_ask(args, seen) == shown(
            Reply::Errno(9),
        ) && reading::fd_metadata_ask(args, seen) == shown(Reply::Errno(9)),
{
}

/// `statx(dirfd, path, flags, mask, buffer)` passes its flags and its mask on, and what it
/// writes to the buffer of the call is what was read, but for the permissions: where the
/// branch keeps some, the two bytes of the mode hold them and the kind of the file.
pub proof fn law_statx_shows_the_branch(args: Seq<u64>, order: ByteOrder, seen: ReadSeen)
    requires
        args.len() == 6,
    ensures
        match reading::statx_ask(args, order, seen) {
            ReadAsk::Walk(walk::WalkAsk::ReadPath { address }) => address == args[1],
            ReadAsk::Walk(walk::WalkAsk::LookAtBase { dirfd }) => dirfd == (args[0] as i64) as i32,
            ReadAsk::Look { follow, .. } => follow == (args[2] & 0x100 == 0),
            ReadAsk::StatxAt { flags, mask, .. } => flags == args[2] as i32 && mask == args[3] as u32,
            ReadAsk::StatxHandle { flags, mask } => flags == args[2] as i32 && mask == args[3] as u32 && args[2] & 0x1000
                != 0,
            ReadAsk::WriteBytes { address, bytes } => {
                &&& address == args[4]
                &&& seen.metadata matches Some(Ok(was)) && bytes.len() == was@.len() && forall|i: int|
                    0 <= i < bytes.len() && i != 28 && i != 29 ==> #[trigger] bytes[i] == was@[i]
            },
            _ => true,
        },
{
}

/// The two bytes of a mode in extended metadata hold the permissions that the branch keeps
/// and the kind of the file that was there, as a mode of plain metadata does.
pub proof fn law_statx_modes_are_stat_modes(bytes: Seq<u8>, kept: u32, order: ByteOrder)
    requires
        bytes.len() >= 30,
        kept <= 0o7777,
    ensures
        ({
            let was = byte_order::u16_in(bytes.subrange(28, 30), order);
            let now = byte_order::u16_in(read::patched_statx(bytes, Some(kept), order).subrange(28, 30), order);
            is_shown_mode(now as u32, was as u32, Some(kept))
        }),
        read::patched_statx(bytes, None, order) == bytes,
{
    let was = byte_order::u16_in(bytes.subrange(28, 30), order);
    let mode = (was & !0o7777u16) | (kept as u16);
    let image = byte_order::u16_image(mode, order);
    byte_order::law_numbers_read_back(mode, 0, order);
    let after = read::patched_statx(bytes, Some(kept), order);
    assert(image.len() == 2) by {
        vstd::bytes::lemma_auto_spec_u16_to_from_le_bytes();
    }
    assert(after.subrange(28, 30) =~= image);
    let narrow = kept as u16;
    assert(narrow <= 0o7777u16);
    assert(((was & !0o7777u16) | narrow) as u32 & !0o7777u32 == was as u32 & !0o7777u32) by (bit_vector)
        requires
            narrow <= 0o7777u16,
    ;
    assert(((was & !0o7777u16) | narrow) as u32 & 0o7777u32 == narrow as u32) by (bit_vector)
        requires
            narrow <= 0o7777u16,
    ;
}

/// Permissions are asked for of a directory alone: to read it and to search it, as the
/// call asks; whoever may not is told. An entry that is asked to be writable is there, or
/// the kernel says what is wrong; everything else is the kernel's to answer.
pub proof fn law_access_is_answered(args: Seq<u64>, seen: ReadSeen)
    requires
        args.len() == 6,
        reading::access_ask(AccessCall::FaccessAt2, args, ReadSeen { is_directory: None, ..seen }) is LookAtKind,
        seen.is_directory is Some,
    ensures
        ({
            let path = reading::access_ask(
                AccessCall::FaccessAt2,
                args,
                ReadSeen { is_directory: None, ..seen },
            )->LookAtKind_path;
            let ask = reading::access_ask(AccessCall::FaccessAt2, args, seen);
            let is_directory = seen.is_directory->0;
            match seen.walk.access {
                None => ask matches ReadAsk::Walk(walk::WalkAsk::CheckAccess { path: checked, bits }) && {
                    &&& checked == path
                    &&& (bits & 0o400 != 0) <==> is_directory && args[2] & 4 != 0
                    &&& (bits & 0o100 != 0) <==> is_directory && args[2] & 1 != 0
                    &&& bits & !0o500u32 == 0
                },
                Some(Err(errno)) => ask == shown(Reply::Errno(errno)),
                Some(Ok(_)) => if args[2] & 2 == 0 {
                    ask == shown(Reply::Continue)
                } else {
                    match seen.exists {
                        None => ask == (ReadAsk::LookForPath { path }),
                        Some(true) => ask == shown(Reply::Value(0)),
                        Some(false) => ask == shown(Reply::Continue),
                    }
                },
            }
        }),
{
    assert(0o400u32 & 0o400 != 0 && 0o400u32 & 0o100 == 0 && 0o400u32 & !0o500u32 == 0) by (bit_vector);
    assert(0o100u32 & 0o100 != 0 && 0o100u32 & 0o400 == 0 && 0o100u32 & !0o500u32 == 0) by (bit_vector);
    assert(0u32 & 0o100 == 0 && 0u32 & 0o400 == 0 && 0u32 & !0o500u32 == 0) by (bit_vector);
    assert((0o400u32 | 0o100) & 0o400 != 0 && (0o400u32 | 0o100) & 0o100 != 0 && (0o400u32 | 0o100) & !0o500u32 == 0)
        by (bit_vector);
    assert(0o400u32 | 0 == 0o400 && 0u32 | 0o100 == 0o100 && 0u32 | 0 == 0) by (bit_vector);
}

/// A program of the upper layer is run from its layer: it is opened there, handed over and
/// run by its descriptor. One that is deleted or missing is not there, and one of the lower
/// layer is the kernel's to run.
pub proof fn law_programs_run_from_their_layer(call: ExecCall, args: Seq<u64>, seen: ReadSeen, look: BranchLook)
    requires
        args.len() == 6,
        reading::exec_ask(call, args, ReadSeen { look: None, ..seen }) is Look,
        seen.look == Some(look),
    ensures
        ({
            let ask = reading::exec_ask(call, args, seen);
            let layers = seen.walk.layers->0->0;
            match look.actual {
                None => ask == shown(Reply::Errno(2)),
                Some(actual) => match paths::picked_layer(layers.workdir@, layers.upper@, actual@) {
                    Some((true, rel)) => match (seen.opened, seen.injected, seen.is_written) {
                        _ if !vstd::utf8::valid_utf8(rel) => ask == shown(Reply::Errno(2)),
                        (None, _, _) => ask == (ReadAsk::OpenFile { in_upper: true, rel }),
                        (Some(false), _, _) => ask == shown(Reply::Errno(2)),
                        (Some(true), None, _) => ask is Inject,
                        (Some(true), Some(None), _) => ask == shown(Reply::Errno(5)),
                        (Some(true), Some(Some(fd)), None) => ask is RewriteExec && ask->RewriteExec_fd == fd,
                        (Some(true), Some(Some(_)), Some(false)) => ask == shown(Reply::Errno(14)),
                        (Some(true), Some(Some(_)), Some(true)) => ask == shown(Reply::Continue),
                    },
                    _ => ask == shown(Reply::Continue),
                },
            }
        }),
{
}

/// What a symbolic link holds is shown as far as the buffer of the call reaches, and the
/// number of bytes that were shown is told; a link that the branch does not have is not
/// there.
pub proof fn law_links_are_shown(args: Seq<u64>, seen: ReadSeen, held: Option<Vec<u8>>)
    requires
        args.len() == 6,
        reading::readlink_ask(args, ReadSeen { symlink: None, ..seen }) is ReadSymlink,
        seen.symlink == Some(held),
    ensures
        ({
            let ask = reading::readlink_ask(args, seen);
            let room = (args[3] & 0xffff_ffff) as int;
            match held {
                None => ask == shown(Reply::Errno(2)),
                Some(target) => match seen.is_written {
                    None => ask is WriteBytes && {
                        let bytes = ask->WriteBytes_bytes;
                        &&& ask->WriteBytes_address == args[2]
                        &&& bytes.len() <= room
                        &&& bytes.is_prefix_of(target@)
                        &&& bytes.len() < target@.len() ==> bytes.len() == room
                    },
                    Some(false) => ask == shown(Reply::Continue),
                    Some(true) => ask == shown(
                        Reply::Value(
                            reading::readlink_ask(args, ReadSeen { is_written: None, ..seen })->WriteBytes_bytes.len() as i64,
                        ),
                    ),
                },
            }
        }),
{
    let room = (args[3] & 0xffff_ffff) as int;
    assert(room >= 0);
    if held is Some {
        let target = held->0@;
        if target.len() > room {
            assert(target.take(room).is_prefix_of(target));
        }
    }
}

/// The working directory is shown as the branch leads to it, closed by a zero byte, with
/// its length told, or refused where the buffer is too small.
pub proof fn law_working_directories_are_shown(args: Seq<u64>, seen: ReadSeen, cwd: Vec<u8>)
    requires
        args.len() == 6,
        seen.walk.virtual_cwd == Some(Some(cwd)),
    ensures
        ({
            let ask = reading::getcwd_ask(args, seen);
            if cwd@.len() >= (args[1] & 0xffff_ffff) {
                ask == shown(Reply::Errno(34))
            } else {
                match seen.is_written {
                    None => ask == (ReadAsk::WriteBytes { address: args[0], bytes: cwd@ + seq![0u8] }),
                    Some(false) => ask == shown(Reply::Continue),
                    Some(true) => ask == shown(Reply::Value((cwd@.len() + 1) as i64)),
                }
            }
        }),
{
    assert(cwd@.push(0) =~= cwd@ + seq![0u8]);
}

/// A task that stands in the upper layer is shown the place in the working directory that
/// it stands for; one that stands outside asks the kernel.
pub proof fn law_upper_directories_are_shown_in_their_place(args: Seq<u64>, seen: ReadSeen, link: Vec<u8>)
    requires
        args.len() == 6,
        seen.walk.virtual_cwd == Some(None::<Vec<u8>>),
        seen.walk.layers matches Some(Some(_)),
        seen.walk.link == Some(Some(link)),
        seen.is_written is None,
    ensures
        ({
            let layers = seen.walk.layers->0->0;
            let ask = reading::getcwd_ask(args, seen);
            let way = path::parts(link@);
            let upper = path::parts(layers.upper@);
            if way.len() >= upper.len() && way.take(upper.len() as int) == upper {
                ask == shown(Reply::Errno(34)) || (ask matches ReadAsk::WriteBytes { address, bytes } && address
                    == args[0] && bytes == crate::text::lossy_text(
                    path::joined_path(layers.workdir@, path::way_bytes(way.skip(upper.len() as int))),
                ) + seq![0u8])
            } else {
                ask == shown(Reply::Continue)
            }
        }),
{
    let layers = seen.walk.layers->0->0;
    let way = path::parts(link@);
    let upper = path::parts(layers.upper@);
    if path::starts_with(way, upper) {
        let cwd = crate::text::lossy_text(path::joined_path(layers.workdir@, path::way_bytes(way.skip(upper.len() as int))));
        assert(cwd.push(0) =~= cwd + seq![0u8]);
    }
}

/// A directory that only the branch has is entered through the upper layer: it is opened
/// there, handed over, and the path of the call is written over with that of the
/// descriptor, which has to fit where the path was. A directory that the kernel has under
/// its own name is the kernel's to enter.
pub proof fn law_branch_directories_are_entered(args: Seq<u64>, seen: ReadSeen)
    requires
        args.len() == 6,
    ensures
        match reading::chdir_ask(args, seen) {
            ReadAsk::Walk(walk::WalkAsk::ReadPath { address }) => address == args[0],
            ReadAsk::Walk(walk::WalkAsk::LookAtBase { dirfd }) => dirfd == -100i32,
            ReadAsk::Walk(walk::WalkAsk::CheckAccess { bits, .. }) => bits == 0o100,
            ReadAsk::OpenDirectory { rel } => {
                &&& seen.rel matches Some(Some(named)) && rel == named@
                &&& seen.kernel_knows == Some(false)
                &&& seen.upper_has == Some(true)
            },
            ReadAsk::Inject { closes_on_exec } => closes_on_exec && seen.opened == Some(true) && seen.upper_has == Some(
                true,
            ) && seen.kernel_knows == Some(false),
            ReadAsk::RewritePath { address, bytes } => {
                &&& address == args[0]
                &&& seen.injected matches Some(Some(_))
                &&& bytes.len() <= seen.walk.written->0->0@.len() + 1
                &&& bytes.last() == 0
            },
            ReadAsk::Remember { cwd } => seen.is_written == Some(true) && seen.injected matches Some(Some(_)),
            _ => true,
        },
        ({
            let leads = reading::chdir_ask(args, ReadSeen { rel: None, ..seen });
            leads is FindRel ==> {
                &&& seen.rel == Some(None::<Vec<u8>>) ==> reading::chdir_ask(args, seen) == shown(Reply::Continue)
                &&& (seen.rel matches Some(Some(_)) && seen.kernel_knows == Some(true)) ==> reading::chdir_ask(args, seen)
                    == shown(Reply::Continue)
                &&& (seen.rel matches Some(Some(_)) && seen.kernel_knows == Some(false) && seen.upper_has == Some(false))
                    ==> reading::chdir_ask(args, seen) == shown(Reply::Continue)
                &&& reading::chdir_ask(args, seen) is Remember ==> reading::chdir_ask(args, seen)->Remember_cwd
                    == leads->FindRel_path
            }
        }),
{
}

/// Times are set on the copy in the upper layer, at the place where the path leads: those
/// that the task wrote, or the present where it names none. A task that cannot be read, and
/// a branch that has no room, are told.
pub proof fn law_times_are_set_in_the_upper(args: Seq<u64>, seen: ReadSeen)
    requires
        args.len() == 6,
        args[1] != 0,
    ensures
        match reading::utimensat_ask(args, seen) {
            ReadAsk::Walk(walk::WalkAsk::ReadPath { address }) => address == args[1],
            ReadAsk::Walk(walk::WalkAsk::LookAtBase { dirfd }) => dirfd == (args[0] as i64) as i32,
            ReadAsk::Lead { follow, .. } => follow == (args[3] & 0x100 == 0),
            ReadAsk::CopyUp { path } => seen.led matches Some(Ok(led)) && path == led@ && seen.walk.access matches Some(
                Ok(_),
            ),
            ReadAsk::ReadTimes { address, size } => address == args[2] && address != 0 && size == 32,
            ReadAsk::Stamp { in_upper, rel, times, follow } => {
                let layers = seen.walk.layers->0->0;
                &&& follow == (args[3] & 0x100 == 0)
                &&& seen.upper matches Some(Ok(Some(copy))) && paths::picked_layer(
                    layers.workdir@,
                    layers.upper@,
                    copy@,
                ) == Some((in_upper, rel))
                &&& if args[2] == 0 {
                    times is None
                } else {
                    seen.times matches Some(Some(written)) && times == Some(written@)
                }
            },
            _ => true,
        },
        ({
            let asked = reading::utimensat_ask(args, ReadSeen { upper: None, ..seen });
            let ask = reading::utimensat_ask(args, seen);
            asked is CopyUp ==> match seen.upper {
                None => ask is CopyUp,
                Some(Err(BranchFault::QuotaExceeded)) => ask == shown(Reply::Errno(28)),
                Some(Err(_)) | Some(Ok(None)) => ask == shown(Reply::Errno(5)),
                Some(Ok(Some(_))) => (args[2] != 0 && seen.times == Some(None::<Vec<u8>>)) ==> ask == shown(
                    Reply::Errno(14),
                ),
            }
        }),
        ({
            let asked = reading::utimensat_ask(args, ReadSeen { stamped: None, ..seen });
            let ask = reading::utimensat_ask(args, seen);
            asked is Stamp ==> match seen.stamped {
                None => ask is Stamp,
                Some(Err(errno)) => ask == shown(Reply::Errno(errno)),
                Some(Ok(_)) => ask == shown(Reply::Value(0)),
            }
        }),
{
}

/// Entering a directory by its descriptor is refused where it is no directory, and where
/// the branch, or the directory itself where the branch keeps no mode, does not let it be
/// searched; what is not of the branch is the kernel's to enter.
pub proof fn law_entered_descriptors_are_searchable(args: Seq<u64>, seen: ReadSeen, facts: HandleFacts, mode: u32)
    requires
        args.len() == 6,
        reading::fchdir_ask(args, ReadSeen { handle: None, ..seen }) is LookAtHandle,
        seen.handle == Some(Some(facts)),
        seen.mode == Some(Ok::<u32, i32>(mode)),
    ensures
        ({
            let permissions = match facts.logical_mode {
                Some(kept) => kept,
                None => mode & 0o7777,
            };
            reading::fchdir_ask(args, seen) == if permissions & 0o100 != 0 {
                ReadAsk::Forget
            } else {
                shown(Reply::Errno(13))
            }
        }),
        mode & 0o170000 == 0o040000,
{
}

/// In a merged listing every name has one record, in the order of the names and numbered
/// from one. What the upper layer has, a broken link included, hides what the lower one
/// has; the record tells the kind and the inode of the one that is shown.
pub proof fn law_upper_entries_hide_lower_ones(names: Seq<NameLook>, i: int)
    requires
        0 <= i < names.len(),
    ensures
        read::records_of(names).len() == names.len(),
        ({
            let record = read::records_of(names)[i];
            let look = names[i];
            let shown = if look.upper.exists || look.upper.is_symlink {
                look.upper
            } else {
                look.lower
            };
            &&& record.name == look.name@
            &&& record.offset == i + 1
            &&& record.in_upper == (look.upper.exists || look.upper.is_symlink)
            &&& record.kind is Directory <==> shown.is_directory
            &&& record.kind is Symlink <==> shown.is_symlink && !shown.is_directory
            &&& record.kind is File <==> !shown.is_symlink && !shown.is_directory
            &&& shown.inode matches Some(inode) ==> record.inode == inode
            &&& shown.inode is None ==> record.inode == 0
        }),
{
}

/// A directory is listed by the branch exactly where the branch has changes and the
/// directory is its own, by its path or as a place of the upper layer; one that may not be
/// searched is refused, and every other one is the kernel's to list.
pub proof fn law_changed_directories_are_listed(args: Seq<u64>, seen: ListSeen, facts: read::DirectoryFacts, actual: Seq<u8>)
    requires
        args.len() == 6,
        reading::list_place(args, ListSeen { branch: None, ..seen }) == Err::<reading::ListPlace, ListAsk>(
            ListAsk::LookAtDirectory { actual },
        ),
        seen.branch == Some(Some(facts)),
        seen.is_known == Some(true),
    ensures
        ({
            let place = reading::list_place(args, seen);
            let way = path::parts(actual);
            let upper = path::parts(seen.upper@);
            let in_upper = way.len() >= upper.len() && way.take(upper.len() as int) == upper;
            if facts.logical_mode matches Some(kept) && kept & 0o100 == 0 {
                place == Err::<reading::ListPlace, ListAsk>(ListAsk::Answer(Reply::Errno(13)))
            } else if facts.has_changes && (facts.matches || in_upper) {
                &&& place matches Ok(found) && found.actual == actual
                &&& (facts.matches && facts.rel matches Some(rel)) ==> place->Ok_0.rel == facts.rel->0@
            } else {
                place == Err::<reading::ListPlace, ListAsk>(ListAsk::Answer(Reply::Continue))
            }
        }),
{
}

/// A listing asks for the descriptor of the call, and writes to the buffer of the call no
/// more than it takes.
pub proof fn law_listings_go_to_the_buffer(
    args: Seq<u64>,
    seen: ListSeen,
    before: Option<(Seq<u8>, Seq<Seq<u8>>)>,
    step: ListAsk,
    after: Option<(Seq<u8>, Seq<Seq<u8>>)>,
)
    requires
        args.len() == 6,
        reading::is_listing(args, seen, before, step, after),
    ensures
        seen.pinned is None ==> step == (ListAsk::PinDescriptor { fd: args[0] as i32 }) && after == before,
        step matches ListAsk::Write { address, bytes } ==> address == args[1] && bytes.len() <= args[2] & 0xffff_ffff,
{
}

} // verus!
