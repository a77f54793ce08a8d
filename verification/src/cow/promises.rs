//! What the calls that a branch answers promise to the task.
//!
//! The flags and numbers are written out here as the system defines them, so that what is
//! promised can be read without the rules that keep it.

use crate::byte_order;
use crate::byte_order::Machine;
use crate::cow::open;
use crate::cow::open::{BranchFault, OpenCall, OpenPlan};
use crate::cow::opening;
use crate::cow::opening::{OpenAsk, OpenSeen};
use crate::cow::paths;
use crate::cow::walk;
use crate::cow::write::{PathArgument, WriteCall, WriteFacts, WriteKind, WriteView};
use crate::cow::writing;
use crate::cow::writing::{CopyLook, RunOutcome, WriteAsk, WriteSeen};
use crate::cow::Reply;
use vstd::prelude::*;

verus! {

/// Whether the flags of an open let it write, make or cut a file: to write, to read and
/// write, to make, to cut, or to append.
pub open spec fn asks_to_write(flags: u64) -> bool {
    ||| flags & 0o1 != 0
    ||| flags & 0o2 != 0
    ||| flags & 0o100 != 0
    ||| flags & 0o1000 != 0
    ||| flags & 0o2000 != 0
}

/// The flags of an open, as the task wrote them.
pub open spec fn written_flags(call: OpenCall, args: Seq<u64>, how: Seq<u8>, machine: Machine) -> u64 {
    match call {
        OpenCall::Open => args[1],
        OpenCall::OpenAt => args[2],
        OpenCall::OpenAt2 => byte_order::u64_in(how.subrange(0, 8), machine.order),
    }
}

/// The bytes of the structure of an extended open, where they were read.
pub open spec fn read_how(seen: OpenSeen) -> Seq<u8> {
    match seen.how {
        Some(Some(how)) => how@,
        _ => Seq::empty(),
    }
}

/// The flags of an open that write are these five, in any mixture.
proof fn lemma_write_flags(flags: u64)
    ensures
        open::may_write(flags) <==> asks_to_write(flags),
{
    assert((flags & 0o3103 != 0) <==> (flags & 0o1 != 0 || flags & 0o2 != 0 || flags & 0o100 != 0 || flags & 0o1000 != 0
        || flags & 0o2000 != 0)) by (bit_vector);
}

/// An open of a path of the branch that may write is never left to the kernel before the
/// branch has planned it, nor is one whose reads must go through the branch.
pub proof fn law_writing_opens_are_planned(call: OpenCall, args: Seq<u64>, machine: Machine, seen: OpenSeen)
    requires
        opening::request_of(call, args, machine.order, seen) matches Ok(request) && opening::target_of(
            request,
            machine,
            seen,
        ) is Ok,
        seen.plan is None,
        opening::open_ask(call, args, machine, seen) == OpenAsk::Walk(walk::WalkAsk::Answer(Reply::Continue)),
    ensures
        !asks_to_write(written_flags(call, args, read_how(seen), machine)),
        seen.access matches Some(facts) && facts.access is Ok && !facts.needs_read_intercept,
{
    let request = opening::request_of(call, args, machine.order, seen)->Ok_0;
    lemma_write_flags(request.flags);
}

/// How an open asks links to be treated, as the task wrote it.
pub open spec fn written_resolve(call: OpenCall, how: Seq<u8>, machine: Machine) -> u64 {
    match call {
        OpenCall::OpenAt2 => byte_order::u64_in(how.subrange(16, 24), machine.order),
        _ => 0,
    }
}

/// The mode of a new file, as the task wrote it.
pub open spec fn written_mode(call: OpenCall, args: Seq<u64>, how: Seq<u8>, machine: Machine) -> u64 {
    match call {
        OpenCall::Open => args[2],
        OpenCall::OpenAt => args[3],
        OpenCall::OpenAt2 => byte_order::u64_in(how.subrange(8, 16), machine.order),
    }
}

/// An answer to an open.
pub open spec fn open_answer(reply: Reply) -> OpenAsk {
    OpenAsk::Walk(walk::WalkAsk::Answer(reply))
}

/// What an open asks of the system is what the task wrote: its path is read where the
/// call has it, from the directory that the call names; the branch plans it with its
/// flags; the file is opened with them but for those that make a file; and the descriptor
/// is closed on running a program where the task asked for it.
pub proof fn law_opens_ask_for_what_was_written(call: OpenCall, args: Seq<u64>, machine: Machine, seen: OpenSeen)
    requires
        args.len() == 6,
    ensures
        ({
            let how = read_how(seen);
            let flags = written_flags(call, args, how, machine);
            match opening::open_ask(call, args, machine, seen) {
                OpenAsk::Walk(walk::WalkAsk::ReadPath { address }) => address == if call is Open {
                    args[0]
                } else {
                    args[1]
                },
                OpenAsk::Walk(walk::WalkAsk::LookAtBase { dirfd }) => dirfd == if call is Open {
                    -100i32
                } else {
                    (args[0] as i64) as i32
                },
                OpenAsk::ReadHow { address, size } => call is OpenAt2 && address == args[2] && size == args[3] && 24
                    <= size <= 4096,
                OpenAsk::Resolve { rules, .. } => {
                    &&& rules.follow == (flags & machine.nofollow == 0)
                    &&& rules.in_root == (written_resolve(call, how, machine) & 0x10 != 0)
                    &&& rules.beneath == (written_resolve(call, how, machine) & 0x08 != 0)
                },
                OpenAsk::LookAtKind { follow, .. } => follow == (flags & machine.nofollow == 0),
                OpenAsk::Plan { flags: asked, .. } => asked == flags,
                OpenAsk::Open { flags: asked, resolve, .. } => {
                    &&& asked & !0o300i32 == (flags & !0o300u64) as i32
                    &&& resolve == written_resolve(call, how, machine)
                },
                OpenAsk::Inject { closes_on_exec } => closes_on_exec == (flags & 0o2000000 != 0),
                _ => true,
            }
        }),
{
    let flags = written_flags(call, args, read_how(seen), machine);
    let ordinary = (flags & !0o200u64) as i32;
    assert(ordinary & !0o300i32 == (flags & !0o300u64) as i32) by (bit_vector)
        requires
            ordinary == (flags & !0o200u64) as i32,
    ;
    assert((ordinary | 0o100i32 | 0o200i32) & !0o300i32 == (flags & !0o300u64) as i32) by (bit_vector)
        requires
            ordinary == (flags & !0o200u64) as i32,
    ;
    assert(0o100u64 as i32 == 0o100i32) by (bit_vector);
    assert(0o200u64 as i32 == 0o200i32) by (bit_vector);
}

/// `open(path, flags, mode)` is answered as `openat` from the working directory is, and an
/// extended open without rules for links as `openat` is.
pub proof fn law_opens_agree(
    args: Seq<u64>,
    plain: Seq<u64>,
    extended: Seq<u64>,
    machine: Machine,
    seen: OpenSeen,
    how: Vec<u8>,
)
    requires
        args.len() == 6,
        plain.len() == 6,
        extended.len() == 6,
        args[0] as i64 == -100,
        plain[0] == args[1],
        plain[1] == args[2],
        plain[2] == args[3],
        extended[0] == args[0],
        extended[1] == args[1],
        extended[3] == 24,
        how@.len() == 24,
        byte_order::u64_in(how@.subrange(0, 8), machine.order) == args[2],
        byte_order::u64_in(how@.subrange(8, 16), machine.order) == args[3],
        byte_order::u64_in(how@.subrange(16, 24), machine.order) == 0,
    ensures
        opening::open_ask(OpenCall::Open, plain, machine, seen) == opening::open_ask(
            OpenCall::OpenAt,
            args,
            machine,
            seen,
        ),
        opening::open_ask(OpenCall::OpenAt2, extended, machine, OpenSeen { how: Some(Some(how)), ..seen })
            == opening::open_ask(OpenCall::OpenAt, args, machine, OpenSeen { how: Some(Some(how)), ..seen }),
{
    let shown = OpenSeen { how: Some(Some(how)), ..seen };
    assert(open::zero_from(how@, open::OPEN_HOW_SIZE as int));
    assert(opening::request_of(OpenCall::OpenAt2, extended, machine.order, shown) == opening::request_of(
        OpenCall::OpenAt,
        args,
        machine.order,
        shown,
    ));
}

/// What the branch says of a path decides how an open goes on: a path that is not its own
/// is left to the kernel; unknown rules, forbidden links and links that lead out are
/// refused, each with its error; and otherwise the branch looks at what the path leads to.
pub proof fn law_resolution_decides(
    call: OpenCall,
    args: Seq<u64>,
    machine: Machine,
    seen: OpenSeen,
    facts: open::ResolutionFacts,
)
    requires
        args.len() == 6,
        opening::open_ask(call, args, machine, OpenSeen { resolution: None, ..seen }) is Resolve,
        seen.resolution == Some(facts),
        (facts.bounded is Some) == (opening::open_ask(call, args, machine, OpenSeen { resolution: None, ..seen })->Resolve_bound
            is Some),
        seen.is_directory is None,
    ensures
        ({
            let input = opening::open_ask(call, args, machine, OpenSeen { resolution: None, ..seen })->Resolve_path;
            let how = read_how(seen);
            let flags = written_flags(call, args, how, machine);
            let resolve = written_resolve(call, how, machine);
            let ask = opening::open_ask(call, args, machine, seen);
            if !facts.matches {
                ask == open_answer(Reply::Continue)
            } else if resolve & !0x3f != 0 {
                ask == open_answer(Reply::Errno(22))
            } else if resolve & 0x04 != 0 && facts.uses_symlink {
                ask == open_answer(Reply::Errno(40))
            } else if resolve & 0x08 != 0 && facts.uses_absolute_symlink {
                ask == open_answer(Reply::Errno(18))
            } else {
                match facts.bounded {
                    Some(Err(errno)) if !(errno == 2 && flags & 0o100 != 0) => ask == open_answer(Reply::Errno(errno)),
                    Some(Ok(leads)) => ask is LookAtKind && ask->LookAtKind_path == leads@,
                    _ => ask is LookAtKind && ask->LookAtKind_path == input,
                }
            }
        }),
{
}

/// What the branch says of permissions decides how an open goes on: what is denied fails
/// with its error, and so does a new file whose parent cannot take it; an open that can
/// neither write nor needs the branch to be read is left to the kernel; and every other
/// one is planned by the branch.
pub proof fn law_permissions_decide(
    call: OpenCall,
    args: Seq<u64>,
    machine: Machine,
    seen: OpenSeen,
    facts: open::AccessFacts,
)
    requires
        args.len() == 6,
        opening::open_ask(call, args, machine, OpenSeen { access: None, ..seen }) is CheckAccess,
        seen.access == Some(facts),
        seen.plan is None,
    ensures
        ({
            let flags = written_flags(call, args, read_how(seen), machine);
            let ask = opening::open_ask(call, args, machine, seen);
            match (facts.access, facts.parent) {
                (Err(errno), _) => ask == open_answer(Reply::Errno(errno)),
                (Ok(_), Err(errno)) if flags & 0o100 != 0 => ask == open_answer(Reply::Errno(errno)),
                _ => if asks_to_write(flags) || facts.needs_read_intercept {
                    &&& ask is Plan
                    &&& ask->Plan_path == opening::open_ask(
                        call,
                        args,
                        machine,
                        OpenSeen { access: None, ..seen },
                    )->CheckAccess_path
                } else {
                    ask == open_answer(Reply::Continue)
                },
            }
        }),
{
    let request = opening::request_of(call, args, machine.order, seen)->Ok_0;
    lemma_write_flags(request.flags);
}

/// An open asks for permissions of a directory alone, and never of one that is opened
/// only to be named: always to search it, and to read it unless it is opened only to be
/// written.
pub proof fn law_directories_are_searched(call: OpenCall, args: Seq<u64>, machine: Machine, seen: OpenSeen)
    requires
        args.len() == 6,
        opening::open_ask(call, args, machine, seen) is CheckAccess,
    ensures
        ({
            let flags = written_flags(call, args, read_how(seen), machine);
            let bits = opening::open_ask(call, args, machine, seen)->CheckAccess_bits;
            if seen.is_directory == Some(true) && flags & 0o10000000 == 0 {
                bits == if flags & 0o3 == 1 {
                    0o100u32
                } else {
                    0o500u32
                }
            } else {
                bits == 0
            }
        }),
{
    assert(0o100u32 | 0o400u32 == 0o500u32) by (bit_vector);
}

/// What the branch plans is done: a deleted file is not there, a fault is told by its
/// error, and a file that has to be copied is copied before anything is opened; where that
/// fails, what was kept for it is given back.
pub proof fn law_plans_are_followed(
    call: OpenCall,
    args: Seq<u64>,
    machine: Machine,
    seen: OpenSeen,
    plan: Result<OpenPlan, BranchFault>,
)
    requires
        args.len() == 6,
        opening::open_ask(call, args, machine, OpenSeen { plan: None, ..seen }) is Plan,
        seen.plan == Some(plan),
    ensures
        ({
            let ask = opening::open_ask(call, args, machine, seen);
            match plan {
                Err(BranchFault::QuotaExceeded) => ask == open_answer(Reply::Errno(28)),
                Err(BranchFault::Exists) => ask == open_answer(Reply::Errno(17)),
                Err(BranchFault::Deleted) => ask == open_answer(Reply::Errno(2)),
                Err(_) => ask == open_answer(Reply::Errno(5)),
                Ok(OpenPlan::Skip) => ask == open_answer(Reply::Continue),
                Ok(OpenPlan::Deleted) => ask == open_answer(Reply::Errno(2)),
                Ok(OpenPlan::NeedsCopy { rel, file_size, .. }) => match seen.copied {
                    None => ask == (OpenAsk::Copy { rel: rel@ }),
                    Some(false) => ask == (OpenAsk::GiveBack { bytes: file_size, reply: Reply::Errno(5) }),
                    Some(true) => !(ask is Copy) && !(ask is GiveBack) && ask != open_answer(Reply::Continue),
                },
                Ok(_) => ask != open_answer(Reply::Continue),
            }
        }),
{
}

/// A file is opened in the layer that the plan leads to, and only where the plan leads
/// into one.
pub proof fn law_files_are_opened_where_planned(call: OpenCall, args: Seq<u64>, machine: Machine, seen: OpenSeen)
    requires
        args.len() == 6,
        opening::open_ask(call, args, machine, seen) is Open,
    ensures
        ({
            let ask = opening::open_ask(call, args, machine, seen);
            let layers = seen.walk.layers->0->0;
            &&& seen.walk.layers matches Some(Some(_))
            &&& match seen.plan {
                Some(Ok(OpenPlan::Resolved(actual))) => paths::picked_layer(layers.workdir@, layers.upper@, actual@)
                    == Some((ask->Open_in_upper, ask->Open_rel)),
                Some(Ok(OpenPlan::UpperReady { upper, .. })) => paths::picked_layer(
                    layers.workdir@,
                    layers.upper@,
                    upper@,
                ) == Some((ask->Open_in_upper, ask->Open_rel)),
                Some(Ok(OpenPlan::NeedsCopy { upper, .. })) => seen.copied == Some(true) && paths::picked_layer(
                    layers.workdir@,
                    layers.upper@,
                    upper@,
                ) == Some((ask->Open_in_upper, ask->Open_rel)),
                _ => false,
            }
        }),
{
}

/// The first attempt makes the file exactly where the task asked to make one and the plan
/// says that none is there. A file that is there after all is opened as it is, unless the
/// task asked for a new one; then the task is told.
pub proof fn law_exclusive_opens_do_not_share(
    call: OpenCall,
    args: Seq<u64>,
    machine: Machine,
    seen: OpenSeen,
    errno: i32,
)
    requires
        args.len() == 6,
        opening::open_ask(call, args, machine, OpenSeen { first: None, ..seen }) is Open,
        seen.first == Some(Err::<(), i32>(errno)),
        seen.second is None,
    ensures
        ({
            let flags = written_flags(call, args, read_how(seen), machine);
            let tried = opening::open_ask(call, args, machine, OpenSeen { first: None, ..seen });
            let ask = opening::open_ask(call, args, machine, seen);
            let is_new = flags & 0o100 != 0 && (seen.plan matches Some(
                Ok(OpenPlan::UpperReady { create_candidate, .. }),
            ) && create_candidate);
            &&& tried->Open_flags & 0o200 != 0 <==> is_new
            &&& is_new ==> tried->Open_flags & 0o100 != 0
            &&& if is_new && errno == 17 && flags & 0o200 == 0 {
                &&& ask is Open
                &&& ask->Open_flags & 0o200 == 0
                &&& ask->Open_in_upper == tried->Open_in_upper
                &&& ask->Open_rel == tried->Open_rel
                &&& ask->Open_mode == tried->Open_mode
            } else {
                ask == open_answer(Reply::Errno(errno))
            }
        }),
{
    let flags = written_flags(call, args, read_how(seen), machine);
    let ordinary = (flags & !0o200u64) as i32;
    assert(ordinary & 0o200i32 == 0) by (bit_vector)
        requires
            ordinary == (flags & !0o200u64) as i32,
    ;
    assert((ordinary | 0o100i32 | 0o200i32) & 0o200i32 != 0 && (ordinary | 0o100i32 | 0o200i32) & 0o100i32 != 0)
        by (bit_vector);
    assert(0o100u64 as i32 == 0o100i32) by (bit_vector);
    assert(0o200u64 as i32 == 0o200i32) by (bit_vector);
}

/// A file below a bounded path is opened only where the path still leads to what the
/// branch was asked about; otherwise the task is told to try again.
pub proof fn law_bounded_paths_are_followed_again(call: OpenCall, args: Seq<u64>, machine: Machine, seen: OpenSeen)
    requires
        args.len() == 6,
        written_resolve(call, read_how(seen), machine) & 0x18 != 0,
        opening::open_ask(call, args, machine, OpenSeen { is_directory: None, ..seen }) is LookAtKind,
    ensures
        ({
            let flags = written_flags(call, args, read_how(seen), machine);
            let looked = opening::open_ask(
                call,
                args,
                machine,
                OpenSeen { is_directory: None, ..seen },
            )->LookAtKind_path;
            let ask = opening::open_ask(call, args, machine, seen);
            ask is Open || ask is Inject || ask is SetMode || ask is Discard ==> match seen.bounded {
                Some(Some(Ok(leads))) => leads@ == looked,
                Some(Some(Err(errno))) => errno == 2 && flags & 0o100 != 0,
                _ => false,
            }
        }),
{
    let resolve = written_resolve(call, read_how(seen), machine);
    assert((resolve & 0x18 != 0) <==> (resolve & 0x08 != 0 || resolve & 0x10 != 0)) by (bit_vector);
}

/// The bits of a mode that the mask of a task leaves.
pub open spec fn is_masked(mode: u32, written: u64, mask: Option<u32>) -> bool {
    let taken = match mask {
        Some(known) => known & 0o777,
        None => 0o777,
    };
    &&& mode & taken == 0
    &&& mode | ((written as u32) & 0o7777 & taken) == (written as u32) & 0o7777
}

/// A new file gets the mode that the task asked for, without what its mask takes away, and
/// everything where the mask is not known; it is handed over only after it has that mode,
/// and is removed where it cannot get it.
pub proof fn law_new_files_get_their_mode(call: OpenCall, args: Seq<u64>, machine: Machine, seen: OpenSeen)
    requires
        args.len() == 6,
    ensures
        ({
            let how = read_how(seen);
            let flags = written_flags(call, args, how, machine);
            let written = written_mode(call, args, how, machine);
            let is_new = flags & 0o100 != 0 && (seen.plan matches Some(
                Ok(OpenPlan::UpperReady { create_candidate, .. }),
            ) && create_candidate) && seen.first matches Some(Ok(_));
            match opening::open_ask(call, args, machine, seen) {
                OpenAsk::Open { mode, .. } => if flags & 0o100 != 0 {
                    seen.umask matches Some(mask) && is_masked(mode, written, mask)
                } else {
                    mode == (written & 0o7777) as u32
                },
                OpenAsk::SetMode { mode } => is_new && (seen.umask matches Some(mask) && is_masked(mode, written, mask)),
                OpenAsk::Discard { errno, .. } => is_new && seen.mode_set == Some(Err::<(), i32>(errno)),
                OpenAsk::Inject { .. } => is_new ==> seen.mode_set matches Some(Ok(_)),
                _ => true,
            }
        }),
{
    let written = written_mode(call, args, read_how(seen), machine);
    let asked = written as u32;
    assert forall|taken: u32| taken & 0o777 == taken implies ((asked & 0o7777) & !taken) & taken == 0 && ((asked
        & 0o7777) & !taken) | (asked & 0o7777 & taken) == asked & 0o7777 by {
        assert(((asked & 0o7777) & !taken) & taken == 0 && ((asked & 0o7777) & !taken) | (asked & 0o7777 & taken)
            == asked & 0o7777) by (bit_vector);
    }
    assert(0o777u32 & 0o777 == 0o777) by (bit_vector);
    if seen.umask is Some && seen.umask->0 is Some {
        let mask = seen.umask->0->0;
        assert((mask & 0o777) & 0o777 == mask & 0o777) by (bit_vector);
    }
}

/// What a path-changing call asks for: the places of its paths, and the change.
pub open spec fn asked(call: WriteCall, args: Seq<u64>) -> (PathArgument, Option<PathArgument>, WriteKind) {
    let (first, second) = crate::cow::write::path_arguments(call, args);
    (first, second, crate::cow::write::kind_of(call, args))
}

/// Every call without a directory asks for the same change as its form with one does from
/// the working directory: `rename(old, new)` as `renameat(cwd, old, cwd, new)`, `rmdir` as
/// `unlinkat` of a directory, `lchown` as `fchownat` that does not follow, and so on. A
/// form with flags and none of them set is the form without flags.
pub proof fn law_short_calls_are_their_long_forms(a: u64, b: u64, c: u64, d: u64, e: u64, f: u64, cwd: u64)
    requires
        cwd as i64 == -100,
    ensures
        asked(WriteCall::Rename, seq![a, b, c, d, e, f]) == asked(WriteCall::RenameAt, seq![cwd, a, cwd, b, e, f]),
        asked(WriteCall::RenameAt, seq![a, b, c, d, e, f]) == asked(WriteCall::RenameAt2, seq![a, b, c, d, 0, f]),
        asked(WriteCall::Link, seq![a, b, c, d, e, f]) == asked(WriteCall::LinkAt, seq![cwd, a, cwd, b, 0, f]),
        asked(WriteCall::Unlink, seq![a, b, c, d, e, f]) == asked(WriteCall::UnlinkAt, seq![cwd, a, 0, d, e, f]),
        asked(WriteCall::Rmdir, seq![a, b, c, d, e, f]) == asked(WriteCall::UnlinkAt, seq![cwd, a, 0x200, d, e, f]),
        asked(WriteCall::Mkdir, seq![a, b, c, d, e, f]) == asked(WriteCall::MkdirAt, seq![cwd, a, b, d, e, f]),
        asked(WriteCall::Mknod, seq![a, b, c, d, e, f]) == asked(WriteCall::MknodAt, seq![cwd, a, b, c, e, f]),
        asked(WriteCall::Symlink, seq![a, b, c, d, e, f]) == asked(WriteCall::SymlinkAt, seq![a, cwd, b, d, e, f]),
        asked(WriteCall::Chmod, seq![a, b, c, d, e, f]) == asked(WriteCall::FchmodAt, seq![cwd, a, b, d, e, f]),
        asked(WriteCall::FchmodAt, seq![a, b, c, d, e, f]) == asked(WriteCall::FchmodAt2, seq![a, b, c, 0, e, f]),
        asked(WriteCall::Chown, seq![a, b, c, d, e, f]) == asked(WriteCall::FchownAt, seq![cwd, a, b, c, 0, f]),
        asked(WriteCall::Lchown, seq![a, b, c, d, e, f]) == asked(WriteCall::FchownAt, seq![cwd, a, b, c, 0x100, f]),
{
    assert(0u64 & 0x400 == 0) by (bit_vector);
    assert(0u64 & 0x200 == 0) by (bit_vector);
    assert(0u64 & 0x100 == 0) by (bit_vector);
    assert(0x200u64 & 0x200 != 0) by (bit_vector);
    assert(0x100u64 & 0x100 != 0) by (bit_vector);
    assert(0u64 as u32 == 0u32);
}

/// The forms with a directory say where everything stands: a directory before each path, in
/// the order in which the call names the paths, and what is changed behind them. What a
/// symbolic link holds stands before the place of the link.
pub proof fn law_long_forms_say_where_everything_stands(args: Seq<u64>)
    requires
        args.len() == 6,
    ensures
        ({
            let one = PathArgument { dirfd: args[0] as i64, address: args[1] };
            let two = PathArgument { dirfd: args[2] as i64, address: args[3] };
            let permissions = (args[2] & 0o7777) as u32;
            &&& asked(WriteCall::RenameAt2, args) == (one, Some(two), WriteKind::Rename { flags: args[4] as u32 })
            &&& asked(WriteCall::LinkAt, args) == (one, Some(two), WriteKind::Link { follow_old: args[4] & 0x400 != 0 })
            &&& asked(WriteCall::UnlinkAt, args) == (
                one,
                None::<PathArgument>,
                WriteKind::Unlink { is_dir: args[2] & 0x200 != 0 },
            )
            &&& asked(WriteCall::MkdirAt, args) == (
                one,
                None::<PathArgument>,
                WriteKind::Mkdir { permissions: args[2] as u32 },
            )
            &&& asked(WriteCall::MknodAt, args) == (
                one,
                None::<PathArgument>,
                WriteKind::Mknod { permissions: args[2] as u32, dev: args[3] },
            )
            &&& asked(WriteCall::SymlinkAt, args) == (
                PathArgument { dirfd: args[1] as i64, address: args[2] },
                None::<PathArgument>,
                WriteKind::Symlink,
            )
            &&& asked(WriteCall::FchmodAt2, args) == (
                one,
                None::<PathArgument>,
                WriteKind::Chmod { permissions, follow_final: args[3] & 0x100 == 0 },
            )
            &&& asked(WriteCall::FchownAt, args) == (
                one,
                None::<PathArgument>,
                WriteKind::Chown { uid: args[2] as u32, gid: args[3] as u32, follow_final: args[4] & 0x100 == 0 },
            )
            &&& asked(WriteCall::Truncate, args) == (
                PathArgument { dirfd: (-100) as i64, address: args[0] },
                None::<PathArgument>,
                WriteKind::Truncate { length: args[1] as i64 },
            )
        }),
{
}

/// An answer to a path-changing call.
pub open spec fn write_answer(reply: Reply) -> WriteAsk {
    WriteAsk::First(walk::WalkAsk::Answer(reply))
}

/// What a call reads of the task is where the call has it: the first path, the second,
/// what a symbolic link is to hold, and the descriptor that stands for an empty path.
pub proof fn law_changes_read_what_was_written(call: WriteCall, args: Seq<u64>, seen: WriteSeen)
    requires
        args.len() == 6,
    ensures
        match writing::write_ask(call, args, seen) {
            WriteAsk::First(walk::WalkAsk::ReadPath { address }) => address == asked(call, args).0.address,
            WriteAsk::First(walk::WalkAsk::LookAtBase { dirfd }) => dirfd == asked(call, args).0.dirfd as i32,
            WriteAsk::Second(walk::WalkAsk::ReadPath { address }) => asked(call, args).1 matches Some(second)
                && address == second.address,
            WriteAsk::Second(walk::WalkAsk::LookAtBase { dirfd }) => asked(call, args).1 matches Some(second)
                && dirfd == second.dirfd as i32,
            WriteAsk::ReadTarget { address } => (call is Symlink || call is SymlinkAt) && address == args[0],
            WriteAsk::PinDescriptor { fd } => call is FchmodAt2 && fd == args[0] as i32 && (seen.first.written matches Some(
                Some(written),
            ) && written@.len() == 0),
            WriteAsk::ReadUmask => call is Mkdir || call is MkdirAt,
            _ => true,
        },
{
}

/// The change that the branch makes is the one that the call asks for, at the paths where
/// the paths of the task lead, in the order of the call; a new directory gets the mode that
/// the mask of the task leaves, and a new link holds what the task wrote.
pub proof fn law_changes_are_the_ones_asked_for(call: WriteCall, args: Seq<u64>, seen: WriteSeen, op: WriteView)
    requires
        args.len() == 6,
        writing::write_ask(call, args, seen) == (WriteAsk::Run { op }),
    ensures
        seen.resolved matches Some(Ok(leads)) && op.paths == crate::path::byte_views(leads@),
        op.paths.len() == if asked(call, args).1 is Some {
            2nat
        } else {
            1nat
        },
        match asked(call, args).2 {
            WriteKind::Mkdir { permissions } => op.kind matches WriteKind::Mkdir { permissions: kept }
                && seen.umask matches Some(mask) && is_masked(kept, permissions as u64, mask),
            kind => op.kind == kind,
        },
        op.kind is Symlink ==> (seen.target matches Some(Some(held)) && op.target == Some(held@)),
        !(op.kind is Symlink) ==> op.target is None,
{
    if asked(call, args).2 is Mkdir {
        let wide = asked(call, args).2->Mkdir_permissions;
        assert((wide as u64) as u32 == wide);
        if seen.umask is Some {
            lemma_masked(wide, seen.umask->0);
        }
    }
}

proof fn lemma_masked(wide: u32, mask: Option<u32>)
    ensures
        is_masked(paths::masked_mode(wide, mask), wide as u64, mask),
{
    let taken = match mask {
        Some(known) => known & 0o777,
        None => 0o777,
    };
    assert((wide as u64) as u32 == wide);
    assert(0o777u32 & 0o777 == 0o777) by (bit_vector);
    assert(((wide & 0o7777) & !taken) & taken == 0 && ((wide & 0o7777) & !taken) | (wide & 0o7777 & taken) == wide
        & 0o7777) by (bit_vector);
}

/// The paths of a change are asked about in the order of the call, as the task sees them.
pub proof fn law_changed_paths_keep_their_order(call: WriteCall, args: Seq<u64>, seen: WriteSeen, op: WriteView)
    requires
        args.len() == 6,
        writing::write_ask(call, args, seen) == (WriteAsk::Resolve { op }),
    ensures
        ({
            let layers = seen.first.layers->0->0;
            let (first, second, _) = asked(call, args);
            let one = seen.first.written->0->0@;
            &&& walk::found_base(first.dirfd, one, seen.first) is Ok
            &&& op.paths[0] == paths::logical_path(
                layers.workdir@,
                layers.upper@,
                paths::resolved(one, walk::found_base(first.dirfd, one, seen.first)->Ok_0),
            )
            &&& second is Some ==> {
                let two = seen.second.written->0->0@;
                &&& walk::found_base(second->0.dirfd, two, seen.second) is Ok
                &&& op.paths[1] == paths::logical_path(
                    layers.workdir@,
                    layers.upper@,
                    paths::resolved(two, walk::found_base(second->0.dirfd, two, seen.second)->Ok_0),
                )
            }
        }),
{
}

/// What a change makes, if it makes a new entry: a directory, a node and a symbolic link at
/// their own path, a hard link at its second.
pub open spec fn new_entry(op: WriteView) -> Option<Seq<u8>> {
    if op.kind is Mkdir || op.kind is Mknod || op.kind is Symlink {
        Some(op.paths[0])
    } else if op.kind is Link {
        Some(op.paths[1])
    } else {
        None
    }
}

/// What the branch says of the paths of a change decides how it goes on: nothing is made
/// where something is already, nor where the parent cannot take it, the mode of a link is
/// not changed, and no path of the branch is reached on a way that may not be searched.
pub proof fn law_looks_decide_changes(
    call: WriteCall,
    args: Seq<u64>,
    seen: WriteSeen,
    op: WriteView,
    facts: WriteFacts,
)
    requires
        args.len() == 6,
        writing::write_ask(call, args, WriteSeen { facts: None, ..seen }) == (WriteAsk::Look { op }),
        seen.facts == Some(facts),
    ensures
        ({
            let ask = writing::write_ask(call, args, seen);
            if new_entry(op) is Some && facts.target_exists {
                ask == write_answer(Reply::Errno(17))
            } else if new_entry(op) is Some && facts.parent is Err {
                ask == write_answer(Reply::Errno(facts.parent->Err_0))
            } else if (op.kind matches WriteKind::Chmod { follow_final, .. } && !follow_final) && facts.is_symlink {
                ask == write_answer(Reply::Errno(95))
            } else {
                &&& forall|i: int|
                    0 <= i < facts.paths@.len() && (#[trigger] facts.paths@[i]).matches && facts.paths@[i].access is Err
                        && (forall|j: int|
                        0 <= j < i ==> !((#[trigger] facts.paths@[j]).matches && facts.paths@[j].access is Err)) ==> ask
                        == write_answer(Reply::Errno(facts.paths@[i].access->Err_0))
                &&& (forall|i: int|
                    0 <= i < facts.paths@.len() ==> !((#[trigger] facts.paths@[i]).matches && facts.paths@[i].access
                        is Err)) && seen.copy is None && seen.run is None ==> ask is PlanCopy || ask is LookAgain
            }
        }),
{
    assert forall|i: int|
        0 <= i < facts.paths@.len() && (#[trigger] facts.paths@[i]).matches && facts.paths@[i].access is Err && (forall|
            j: int,
        |
            0 <= j < i ==> !((#[trigger] facts.paths@[j]).matches && facts.paths@[j].access is Err)) implies crate::cow::write::first_denied(
        facts.paths@,
    ) == Some(facts.paths@[i].access->Err_0) by {
        lemma_first_denied(facts.paths@, i);
    }
    if forall|i: int|
        0 <= i < facts.paths@.len() ==> !((#[trigger] facts.paths@[i]).matches && facts.paths@[i].access is Err) {
        lemma_none_denied(facts.paths@);
    }
}

proof fn lemma_none_denied(facts: Seq<crate::cow::write::PathFacts>)
    requires
        forall|i: int| 0 <= i < facts.len() ==> !((#[trigger] facts[i]).matches && facts[i].access is Err),
    ensures
        crate::cow::write::first_denied(facts) is None,
    decreases facts.len(),
{
    if facts.len() > 0 {
        let rest = facts.drop_last();
        assert forall|i: int| 0 <= i < rest.len() implies !((#[trigger] rest[i]).matches && rest[i].access is Err) by {
            assert(rest[i] == facts[i]);
        }
        lemma_none_denied(rest);
        assert(facts[facts.len() - 1] == facts.last());
    }
}

proof fn lemma_first_denied(facts: Seq<crate::cow::write::PathFacts>, i: int)
    requires
        0 <= i < facts.len(),
        facts[i].matches && facts[i].access is Err,
        forall|j: int| 0 <= j < i ==> !((#[trigger] facts[j]).matches && facts[j].access is Err),
    ensures
        crate::cow::write::first_denied(facts) == Some(facts[i].access->Err_0),
    decreases facts.len(),
{
    let rest = facts.drop_last();
    if i < facts.len() - 1 {
        assert(rest[i] == facts[i]);
        assert forall|j: int| 0 <= j < i implies !((#[trigger] rest[j]).matches && rest[j].access is Err) by {
            assert(rest[j] == facts[j]);
        }
        lemma_first_denied(rest, i);
    } else {
        assert forall|j: int| 0 <= j < rest.len() implies !((#[trigger] rest[j]).matches && rest[j].access is Err) by {
            assert(rest[j] == facts[j]);
        }
        lemma_none_denied(rest);
    }
}

/// Whatever changes a file that is there, its mode, its owner, its length, its name or the
/// number of its names, has that file in the upper layer first: the file that is planned
/// for a copy is the one at the first path.
pub proof fn law_changed_files_are_copied_first(call: WriteCall, args: Seq<u64>, seen: WriteSeen, op: WriteView)
    requires
        args.len() == 6,
        writing::write_ask(call, args, seen) == (WriteAsk::Run { op }),
        op.kind is Chmod || op.kind is Chown || op.kind is Truncate || op.kind is Rename || op.kind is Link,
    ensures
        seen.copy is Some,
        seen.copy->0 is NeedsCopy ==> seen.copied == Some(true),
        !(seen.copy->0 is Refused),
        writing::write_ask(call, args, WriteSeen { copy: None, ..seen }) == (WriteAsk::PlanCopy {
            claimed: if op.kind is Link {
                op.paths[1]
            } else {
                op.paths[0]
            },
            path: op.paths[0],
        }),
{
}

/// What becomes of the copy decides how a change goes on: a file that has to be copied is,
/// and where that fails, what was kept for it is given back.
pub proof fn law_copies_decide_changes(call: WriteCall, args: Seq<u64>, seen: WriteSeen, look: CopyLook)
    requires
        args.len() == 6,
        writing::write_ask(call, args, WriteSeen { copy: None, ..seen }) is PlanCopy,
        seen.copy == Some(look),
        seen.run is None,
    ensures
        ({
            let ask = writing::write_ask(call, args, seen);
            match look {
                CopyLook::Unclaimed | CopyLook::Ready => ask is LookAgain,
                CopyLook::Refused(BranchFault::QuotaExceeded) => ask == write_answer(Reply::Errno(28)),
                CopyLook::Refused(_) => ask == write_answer(Reply::Errno(5)),
                CopyLook::NeedsCopy { rel, file_size } => match seen.copied {
                    None => ask == (WriteAsk::Copy { rel: rel@ }),
                    Some(true) => ask is LookAgain,
                    Some(false) => ask == (WriteAsk::GiveBack { bytes: file_size, reply: Reply::Errno(5) }),
                },
            }
        }),
{
}

/// Right before a change is made its paths are looked at once more: without a branch, and
/// where the branch does not claim the first path, the kernel makes it; a hard link between
/// the branch and the outside is refused; everything else the branch makes.
pub proof fn law_claims_decide_changes(
    call: WriteCall,
    args: Seq<u64>,
    seen: WriteSeen,
    op: WriteView,
    facts: writing::RunFacts,
)
    requires
        args.len() == 6,
        writing::write_ask(call, args, WriteSeen { run: None, ..seen }) == (WriteAsk::LookAgain { op }),
        seen.run == Some(Some(facts)),
        seen.outcome is None,
    ensures
        ({
            let ask = writing::write_ask(call, args, seen);
            if new_entry(op) is Some && facts.parent is Err {
                ask == write_answer(Reply::Errno(facts.parent->Err_0))
            } else if op.kind is Link && facts.first_matches != facts.second_matches {
                ask == write_answer(Reply::Errno(18))
            } else if facts.first_matches {
                ask == (WriteAsk::Run { op })
            } else {
                ask == write_answer(Reply::Continue)
            }
        }),
{
}

/// A task is told that its change was made exactly where the branch made it; otherwise it
/// is told why not.
pub proof fn law_made_changes_are_told(call: WriteCall, args: Seq<u64>, seen: WriteSeen, outcome: RunOutcome)
    requires
        args.len() == 6,
        writing::write_ask(call, args, WriteSeen { outcome: None, ..seen }) is Run,
        seen.outcome == Some(outcome),
    ensures
        writing::write_ask(call, args, seen) == write_answer(
            match outcome {
                RunOutcome::Removed(Ok(true)) | RunOutcome::Changed(Ok(true)) => Reply::Value(0),
                RunOutcome::Removed(Ok(false)) => Reply::Errno(5),
                RunOutcome::Removed(Err(errno)) => Reply::Errno(errno),
                RunOutcome::Changed(Ok(false)) => Reply::Errno(17),
                RunOutcome::Changed(Err(BranchFault::Exists)) => Reply::Errno(17),
                RunOutcome::Changed(Err(BranchFault::QuotaExceeded)) => Reply::Errno(28),
                RunOutcome::Changed(Err(BranchFault::Denied)) => Reply::Errno(1),
                RunOutcome::Changed(Err(BranchFault::Deleted)) => Reply::Errno(2),
                RunOutcome::Changed(Err(BranchFault::Other)) => Reply::Errno(5),
                RunOutcome::Linked(reply) => reply,
            },
        ),
{
}

/// A link at the end of a path is followed where a file is cut, where the mode or the owner
/// is asked to be that of the file behind it, and where a hard link asks for it; it is
/// never followed where a name is made, taken away or changed.
pub proof fn law_names_are_not_followed(kind: WriteKind)
    ensures
        crate::cow::write::follows_of(kind) == match kind {
            WriteKind::Truncate { .. } => seq![true],
            WriteKind::Chmod { follow_final, .. } => seq![follow_final],
            WriteKind::Chown { follow_final, .. } => seq![follow_final],
            WriteKind::Link { follow_old } => seq![follow_old, false],
            WriteKind::Rename { .. } => seq![false, false],
            _ => seq![false],
        },
{
}

} // verus!
