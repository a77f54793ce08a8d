use sandlock_core::byte_order::{ByteOrder, Machine};
use sandlock_core::cow::open::{
    after_first_attempt, check_open_access, closes_on_exec, create_mode, first_attempt, open_how_size, open_leaf_bits,
    parse_open, parse_open_how, plan_fault, revalidate, settle_resolution, AccessFacts, AfterOpen, BranchFault,
    OpenCall, OpenPlan, OpenRequest, ResolutionFacts,
};
use sandlock_core::cow::opening::{handle_cow_open, LinkRules, OpenDo, OpenSeen};
use sandlock_core::cow::paths::Layers;
use sandlock_core::cow::read::{
    access_leaf_bits, check_cache, choose_stat_target, entry_type, parse_access, parse_stat, patch_mode,
    patch_statx_mode, rewrite_to_fd, settle_getdents, AccessCall, CacheStep, DirectoryCache,
    DirectoryFacts, EntryType, LayerLook, NameLook, StatCall, StatTarget,
};
use sandlock_core::cow::reading::{
    finish_getdents, handle_cow_access, handle_cow_chdir, handle_cow_exec, handle_cow_fchdir,
    handle_cow_fd_metadata, handle_cow_fstat, handle_cow_getcwd, handle_cow_getdents, handle_cow_readlink,
    handle_cow_stat, handle_cow_statx, handle_cow_utimensat, BranchLook, ExecCall, HandleFacts, ListDo, ListSeen, ReadDo, ReadSeen,
};
use sandlock_core::cow::walk::{WalkSeen, WalkStep};
use sandlock_core::cow::write::{
    check_fd_metadata, check_run, check_write, copy_fault_reply, cow_result, cow_write_paths, parse_cow_write,
    unlink_result, write_call, BranchFacts, CowWriteOp, PathFacts, PinnedFd, WriteCall, WriteFacts, WriteKind,
    WriteNumbers,
};
use sandlock_core::cow::writing::{handle_cow_write, CopyLook, RunFacts, RunOutcome, WriteDo, WriteSeen};
use sandlock_core::cow::Reply;
use sandlock_core::sys::{
    AT_EMPTY_PATH, AT_FDCWD, AT_REMOVEDIR, AT_SYMLINK_NOFOLLOW, E2BIG, EACCES, EAGAIN, EBADF, EEXIST, EFAULT, EINVAL, EIO,
    ELOOP, ENOENT, ENOSPC, ENOTDIR, EOPNOTSUPP, EPERM, ERANGE, EXDEV, O_CLOEXEC, O_CREAT, O_EXCL, O_RDWR, RESOLVE_BENEATH,
    RESOLVE_IN_ROOT, RESOLVE_NO_SYMLINKS, S_IFDIR, W_OK,
};

const MACHINE: Machine = Machine { directory: 0o200000, nofollow: 0o400000, order: ByteOrder::Little };

fn layers() -> Layers {
    Layers { workdir: b"/work".to_vec(), upper: b"/branch/upper".to_vec() }
}

fn numbers() -> WriteNumbers {
    WriteNumbers {
        unlinkat: Some(263),
        mkdirat: Some(258),
        mknodat: Some(259),
        renameat2: Some(316),
        renameat: Some(264),
        symlinkat: Some(266),
        linkat: Some(265),
        fchmodat: Some(268),
        fchmodat2: Some(452),
        fchownat: Some(260),
        unlink: Some(87),
        rmdir: Some(84),
        mkdir: Some(83),
        mknod: Some(133),
        rename: Some(82),
        symlink: Some(88),
        link: Some(86),
        chmod: Some(90),
        chown: Some(92),
        lchown: Some(94),
        truncate: Some(76),
    }
}

#[test]
fn opens_are_read_from_their_arguments() {
    let args = [10, 20, 30, 40, 50, 60];
    let request = parse_open(OpenCall::Open, &args);
    assert_eq!((request.path_address, request.dirfd, request.flags, request.mode), (10, AT_FDCWD as i64, 20, 30));
    let request = parse_open(OpenCall::OpenAt, &args);
    assert_eq!((request.path_address, request.dirfd, request.flags, request.mode), (20, 10, 30, 40));
    let mut how = vec![0u8; 32];
    how[0] = 0x42;
    how[8] = 0x24;
    how[9] = 1;
    how[16] = 8;
    let request = parse_open_how(&args, &how, ByteOrder::Little).unwrap();
    assert_eq!((request.flags, request.mode, request.resolve), (0x42, 0x124, 8));
    let turned = parse_open_how(&args, &how, ByteOrder::Big).unwrap();
    assert_eq!((turned.flags, turned.resolve), (0x42 << 56, 8 << 56));
    how[31] = 1;
    assert_eq!(parse_open_how(&args, &how, ByteOrder::Little), Err(E2BIG));
    assert_eq!(open_how_size(24), Ok(24));
    assert_eq!(open_how_size(23), Err(EINVAL));
    assert_eq!(open_how_size(4097), Err(E2BIG));
}

#[test]
fn resolutions_end_or_lead_on() {
    let request = OpenRequest { path_address: 1, dirfd: 3, flags: 0, mode: 0, resolve: 0 };
    let facts = || ResolutionFacts { matches: true, uses_symlink: true, uses_absolute_symlink: false, bounded: None };
    assert_eq!(settle_resolution(request, b"/work/a", &facts()), Ok(b"/work/a".to_vec()));
    let outside = ResolutionFacts { matches: false, ..facts() };
    assert_eq!(settle_resolution(request, b"/work/a", &outside), Err(Reply::Continue));
    let strict = OpenRequest { resolve: RESOLVE_NO_SYMLINKS, ..request };
    assert_eq!(settle_resolution(strict, b"/work/a", &facts()), Err(Reply::Errno(ELOOP)));
    let unknown = OpenRequest { resolve: 0x1000, ..request };
    assert_eq!(settle_resolution(unknown, b"/work/a", &facts()), Err(Reply::Errno(EINVAL)));
    let missing = ResolutionFacts { bounded: Some(Err(ENOENT)), ..facts() };
    assert_eq!(settle_resolution(request, b"/work/a", &missing), Err(Reply::Errno(ENOENT)));
    let creating = OpenRequest { flags: O_CREAT, ..request };
    assert_eq!(settle_resolution(creating, b"/work/a", &missing), Ok(b"/work/a".to_vec()));
}

#[test]
fn plain_reads_go_to_the_kernel() {
    let facts = AccessFacts { access: Ok(()), parent: Ok(()), needs_read_intercept: false };
    assert_eq!(check_open_access(0, facts), Some(Reply::Continue));
    assert_eq!(check_open_access(O_RDWR, facts), None);
    assert_eq!(check_open_access(0, AccessFacts { needs_read_intercept: true, ..facts }), None);
    assert_eq!(check_open_access(0, AccessFacts { access: Err(EACCES), ..facts }), Some(Reply::Errno(EACCES)));
    assert_eq!(check_open_access(O_CREAT, AccessFacts { parent: Err(ENOENT), ..facts }), Some(Reply::Errno(ENOENT)));
    assert_eq!(open_leaf_bits(0, true), 0o500);
    assert_eq!(open_leaf_bits(1, true), 0o100);
    assert_eq!(open_leaf_bits(0, false), 0);
}

/// What is known of a path that the branch has claimed.
fn claimed(written: &str) -> WalkSeen {
    let mut seen = WalkSeen::nothing();
    seen.written = Some(Some(written.as_bytes().to_vec()));
    seen.layers = Some(Some(layers()));
    seen.matches = Some(true);
    seen.access = Some(Ok(()));
    seen
}

fn opening(written: &str, plan: Result<OpenPlan, BranchFault>) -> OpenSeen {
    OpenSeen {
        how: None,
        walk: claimed(written),
        resolution: Some(ResolutionFacts {
            matches: true,
            uses_symlink: false,
            uses_absolute_symlink: false,
            bounded: None,
        }),
        is_directory: Some(false),
        access: Some(AccessFacts { access: Ok(()), parent: Ok(()), needs_read_intercept: true }),
        plan: Some(plan),
        copied: None,
        umask: None,
        bounded: None,
        first: None,
        second: None,
        mode_set: None,
    }
}

fn answer_of_open(step: OpenDo) -> Option<Reply> {
    match step {
        OpenDo::Walk(WalkStep::Answer(reply)) => Some(reply),
        _ => None,
    }
}

#[test]
fn claimed_opens_never_reach_the_lower() {
    let args = [AT_FDCWD as u64, 1, O_RDWR, 0, 0, 0];
    for (fault, errno) in [
        (BranchFault::QuotaExceeded, ENOSPC),
        (BranchFault::Exists, EEXIST),
        (BranchFault::Deleted, ENOENT),
        (BranchFault::Denied, EIO),
        (BranchFault::Other, EIO),
    ] {
        assert_eq!(plan_fault(fault), errno);
        let step = handle_cow_open(OpenCall::OpenAt, &args, MACHINE, &opening("/work/f", Err(fault)));
        assert_eq!(answer_of_open(step), Some(Reply::Errno(errno)));
    }
    let deleted = handle_cow_open(OpenCall::OpenAt, &args, MACHINE, &opening("/work/f", Ok(OpenPlan::Deleted)));
    assert_eq!(answer_of_open(deleted), Some(Reply::Errno(ENOENT)));
    let skipped = handle_cow_open(OpenCall::OpenAt, &args, MACHINE, &opening("/work/f", Ok(OpenPlan::Skip)));
    assert_eq!(answer_of_open(skipped), Some(Reply::Continue));
    let plan = || Ok(OpenPlan::NeedsCopy { upper: b"/branch/upper/f".to_vec(), rel: b"f".to_vec(), file_size: 9 });
    let mut seen = opening("/work/f", plan());
    assert!(matches!(
        handle_cow_open(OpenCall::OpenAt, &args, MACHINE, &seen),
        OpenDo::Copy { rel } if rel == b"f".to_vec()
    ));
    seen.copied = Some(false);
    assert!(matches!(
        handle_cow_open(OpenCall::OpenAt, &args, MACHINE, &seen),
        OpenDo::GiveBack { bytes: 9, reply: Reply::Errno(EIO) }
    ));
    seen.copied = Some(true);
    assert!(matches!(
        handle_cow_open(OpenCall::OpenAt, &args, MACHINE, &seen),
        OpenDo::Open { in_upper: true, rel, .. } if rel == b"f".to_vec()
    ));
    seen.first = Some(Err(ELOOP));
    assert_eq!(answer_of_open(handle_cow_open(OpenCall::OpenAt, &args, MACHINE, &seen)), Some(Reply::Errno(ELOOP)));
    seen.first = Some(Ok(()));
    assert!(matches!(
        handle_cow_open(OpenCall::OpenAt, &args, MACHINE, &seen),
        OpenDo::Inject { closes_on_exec: false }
    ));
}

#[test]
fn a_new_file_gets_its_mode_before_it_is_handed_over() {
    let args = [AT_FDCWD as u64, 1, O_RDWR | O_CREAT | O_CLOEXEC, 0o666, 0, 0];
    let plan = Ok(OpenPlan::UpperReady { upper: b"/branch/upper/n".to_vec(), create_candidate: true });
    let mut seen = opening("/work/n", plan);
    let next = |seen: &OpenSeen| handle_cow_open(OpenCall::OpenAt, &args, MACHINE, seen);
    assert!(matches!(next(&seen), OpenDo::ReadUmask));
    seen.umask = Some(Some(0o22));
    assert!(matches!(
        next(&seen),
        OpenDo::Open { flags, mode: 0o644, .. } if flags as u64 == O_RDWR | O_CREAT | O_CLOEXEC | O_EXCL
    ));
    seen.first = Some(Err(EEXIST));
    assert!(matches!(next(&seen), OpenDo::Open { flags, .. } if flags as u64 == O_RDWR | O_CREAT | O_CLOEXEC));
    seen.second = Some(Ok(()));
    assert!(matches!(next(&seen), OpenDo::Inject { closes_on_exec: true }));
    seen.first = Some(Ok(()));
    assert!(matches!(next(&seen), OpenDo::SetMode { mode: 0o644 }));
    seen.mode_set = Some(Err(EPERM));
    assert!(matches!(next(&seen), OpenDo::Discard { in_upper: true, errno: EPERM, .. }));
    seen.mode_set = Some(Ok(()));
    assert!(matches!(next(&seen), OpenDo::Inject { closes_on_exec: true }));
}

#[test]
fn opens_are_asked_step_by_step() {
    let args = [3, 1, 0x40, 24, 0, 0];
    let beneath = LinkRules { follow: true, in_root: false, beneath: true };
    let mut seen = opening("x/y", Ok(OpenPlan::Skip));
    seen.walk = WalkSeen::nothing();
    seen.resolution = None;
    let next = |seen: &OpenSeen| handle_cow_open(OpenCall::OpenAt2, &args, MACHINE, seen);
    assert!(matches!(next(&seen), OpenDo::ReadHow { address: 0x40, size: 24 }));
    let mut how = vec![0u8; 24];
    how[16] = RESOLVE_BENEATH as u8;
    seen.how = Some(Some(how));
    assert!(matches!(next(&seen), OpenDo::Walk(WalkStep::ReadPath { address: 1 })));
    seen.walk.written = Some(Some(b"../y".to_vec()));
    seen.walk.has_branch = Some(false);
    assert!(matches!(next(&seen), OpenDo::Walk(WalkStep::ReadDescriptor { fd: 3 })));
    seen.walk.link = Some(Some(b"/work/d".to_vec()));
    assert_eq!(answer_of_open(next(&seen)), Some(Reply::Errno(EXDEV)));
    seen.walk.written = Some(Some(b"x/y".to_vec()));
    assert!(matches!(next(&seen), OpenDo::Walk(WalkStep::ReadLayers)));
    seen.walk.layers = Some(Some(layers()));
    assert!(matches!(
        next(&seen),
        OpenDo::Resolve { path, bound: Some(base), rules }
            if path == b"/work/d/x/y".to_vec() && base == b"/work/d".to_vec() && rules == beneath
    ));
    seen.resolution = Some(ResolutionFacts {
        matches: true,
        uses_symlink: false,
        uses_absolute_symlink: false,
        bounded: Some(Ok(b"/work/d/z".to_vec())),
    });
    seen.is_directory = None;
    assert!(matches!(next(&seen), OpenDo::LookAtKind { path, follow: true } if path == b"/work/d/z".to_vec()));
    seen.is_directory = Some(true);
    seen.access = None;
    assert!(matches!(next(&seen), OpenDo::CheckAccess { bits: 0o500, .. }));
    seen.access = Some(AccessFacts { access: Ok(()), parent: Ok(()), needs_read_intercept: true });
    seen.plan = Some(Ok(OpenPlan::Resolved(b"/work/d/z".to_vec())));
    assert!(matches!(
        next(&seen),
        OpenDo::ResolveAgain { path, base, rules }
            if path == b"/work/d/x/y".to_vec() && base == b"/work/d".to_vec() && rules == beneath
    ));
    seen.bounded = Some(Some(Ok(b"/work/e".to_vec())));
    assert_eq!(answer_of_open(next(&seen)), Some(Reply::Errno(EAGAIN)));
    seen.bounded = Some(Some(Ok(b"/work/d/z".to_vec())));
    assert!(matches!(next(&seen), OpenDo::Open { in_upper: false, rel, .. } if rel == b"d/z".to_vec()));
}

#[test]
fn links_at_the_end_are_followed_unless_the_call_forbids_it() {
    let mut seen = opening("/work/l", Ok(OpenPlan::Skip));
    seen.resolution = None;
    let rules = |flags: u64, seen: &OpenSeen| {
        let args = [AT_FDCWD as u64, 1, flags, 0, 0, 0];
        match handle_cow_open(OpenCall::OpenAt, &args, MACHINE, seen) {
            OpenDo::Resolve { path, bound: None, rules } if path == b"/work/l".to_vec() => rules,
            _ => panic!("the path was not resolved"),
        }
    };
    assert_eq!(rules(O_RDWR, &seen), LinkRules { follow: true, in_root: false, beneath: false });
    assert_eq!(rules(O_RDWR | MACHINE.nofollow, &seen), LinkRules { follow: false, in_root: false, beneath: false });
    seen.resolution = opening("/work/l", Ok(OpenPlan::Skip)).resolution;
    seen.is_directory = None;
    let args = [AT_FDCWD as u64, 1, MACHINE.nofollow, 0, 0, 0];
    assert!(matches!(
        handle_cow_open(OpenCall::OpenAt, &args, MACHINE, &seen),
        OpenDo::LookAtKind { follow: false, .. }
    ));
    let other = Machine { nofollow: 0o100000, ..MACHINE };
    assert!(matches!(
        handle_cow_open(OpenCall::OpenAt, &args, other, &seen),
        OpenDo::LookAtKind { follow: true, .. }
    ));
}

#[test]
fn a_base_can_be_the_root_of_links() {
    let args = [3, 1, 0x40, 24, 0, 0];
    let mut how = vec![0u8; 24];
    how[16] = RESOLVE_IN_ROOT as u8;
    let mut seen = opening("/x", Ok(OpenPlan::Skip));
    seen.how = Some(Some(how));
    seen.walk.link = Some(Some(b"/work/d".to_vec()));
    seen.resolution = None;
    assert!(matches!(
        handle_cow_open(OpenCall::OpenAt2, &args, MACHINE, &seen),
        OpenDo::Resolve { path, bound: Some(base), rules: LinkRules { follow: true, in_root: true, beneath: false } }
            if path == b"/work/d/x".to_vec() && base == b"/work/d".to_vec()
    ));
}

#[test]
fn new_files_are_made_once() {
    let flags = O_CREAT | O_RDWR;
    let (first, exclusive) = first_attempt(flags, true);
    assert_eq!((first as u64, exclusive), (O_CREAT | O_RDWR | O_EXCL, true));
    assert_eq!(after_first_attempt(flags, true, Ok(())), AfterOpen::Opened { created: true });
    assert_eq!(after_first_attempt(flags, true, Err(EEXIST)), AfterOpen::Retry { flags: flags as i32 });
    assert_eq!(after_first_attempt(flags | O_EXCL, true, Err(EEXIST)), AfterOpen::Failed(EEXIST));
    assert_eq!(first_attempt(flags | O_EXCL, false), (flags as i32, false));
    assert_eq!(create_mode(O_CREAT, 0o666, Some(0o27)), 0o640);
    assert_eq!(create_mode(0, 0o10666, Some(0o27)), 0o666);
    assert!(closes_on_exec(O_CLOEXEC) && !closes_on_exec(0));
}

#[test]
fn bounded_opens_are_checked_again() {
    let same = Ok(b"/work/a".to_vec());
    assert_eq!(revalidate(0, true, b"/in", b"/work/a", &same), None);
    assert_eq!(revalidate(0, true, b"/in", b"/work/b", &same), Some(Reply::Errno(EAGAIN)));
    assert_eq!(revalidate(0, false, b"/in", b"/work/a", &same), Some(Reply::Errno(EIO)));
    assert_eq!(revalidate(0, true, b"/in", b"/work/a", &Err(ELOOP)), Some(Reply::Errno(ELOOP)));
    assert_eq!(revalidate(O_CREAT, true, b"/work/a", b"/work/a", &Err(ENOENT)), None);
}

fn reading(written: &str) -> ReadSeen {
    ReadSeen {
        walk: claimed(written),
        is_directory: None,
        exists: None,
        pinned: None,
        branch: None,
        handle: None,
        look: None,
        mode: None,
        metadata: None,
        symlink: None,
        rel: None,
        kernel_knows: None,
        upper_has: None,
        opened: None,
        injected: None,
        led: None,
        upper: None,
        times: None,
        stamped: None,
        is_written: None,
    }
}

fn lies_at(actual: Option<&str>, logical_mode: Option<u32>) -> Option<BranchLook> {
    Some(BranchLook { actual: actual.map(|path| path.as_bytes().to_vec()), logical_mode })
}

fn answer_of(step: ReadDo) -> Option<Reply> {
    match step {
        ReadDo::Walk(WalkStep::Answer(reply)) => Some(reply),
        _ => None,
    }
}

#[test]
fn metadata_comes_from_the_layer_of_the_file() {
    let args = [AT_FDCWD as u64, 1, 2, 0, 0, 0];
    let next = |seen: &ReadSeen| handle_cow_stat(StatCall::NewFstatAt, &args, seen);
    let mut seen = reading("/work/f");
    assert!(matches!(next(&seen), ReadDo::Look { follow: true, .. }));
    seen.look = lies_at(None, None);
    assert_eq!(answer_of(next(&seen)), Some(Reply::Errno(ENOENT)));
    seen.look = lies_at(Some("/etc/f"), None);
    assert_eq!(answer_of(next(&seen)), Some(Reply::Errno(EACCES)));
    seen.look = lies_at(Some("/branch/upper/f"), Some(0o600));
    assert!(matches!(next(&seen), ReadDo::StatAt { in_upper: true, follow: true, rel } if rel == b"f".to_vec()));
    seen.mode = Some(Ok(0o100644));
    assert!(matches!(next(&seen), ReadDo::WriteMode { address: 2, mode: 0o100600 }));
    seen.is_written = Some(true);
    assert_eq!(answer_of(next(&seen)), Some(Reply::Value(0)));
    seen.is_written = Some(false);
    assert_eq!(answer_of(next(&seen)), Some(Reply::Continue));
    seen.walk.access = Some(Err(EACCES));
    assert_eq!(answer_of(next(&seen)), Some(Reply::Errno(EACCES)));
    seen.walk.matches = Some(false);
    assert_eq!(answer_of(next(&seen)), Some(Reply::Continue));
}

#[test]
fn existence_is_asked_inside_the_layer() {
    let args = [AT_FDCWD as u64, 1, 0, 0, 0, 0];
    let next = |seen: &ReadSeen| handle_cow_stat(StatCall::FaccessAt, &args, seen);
    let mut seen = reading("/work/f");
    seen.look = lies_at(Some("/etc/f"), None);
    assert_eq!(answer_of(next(&seen)), Some(Reply::Errno(ENOENT)));
    seen.look = lies_at(Some("/work/f"), None);
    assert!(matches!(next(&seen), ReadDo::StatAt { in_upper: false, follow: false, .. }));
    seen.mode = Some(Ok(0o100644));
    assert_eq!(answer_of(next(&seen)), Some(Reply::Value(0)));
    seen.mode = Some(Err(ELOOP));
    assert_eq!(answer_of(next(&seen)), Some(Reply::Errno(ENOENT)));
}

#[test]
fn descriptors_are_looked_at_where_they_are_pinned() {
    let args = [7, 0, 2, AT_EMPTY_PATH, 0, 0];
    let mut seen = reading("");
    seen.walk = WalkSeen::nothing();
    let next = |seen: &ReadSeen| handle_cow_stat(StatCall::NewFstatAt, &args, seen);
    assert!(matches!(next(&seen), ReadDo::PinDescriptor { fd: 7 }));
    seen.pinned = Some(Ok(PinnedFd { actual: Some(b"/work/f".to_vec()) }));
    assert!(matches!(next(&seen), ReadDo::LookAtHandle { .. }));
    seen.handle = Some(Some(HandleFacts { in_layer: true, logical_mode: None }));
    assert!(matches!(next(&seen), ReadDo::StatHandle));
    assert!(matches!(handle_cow_fstat(&[7, 0x80, 0, 0, 0, 0], &seen), ReadDo::StatHandle));
    seen.mode = Some(Ok(0o100644));
    assert!(matches!(
        handle_cow_fstat(&[7, 0x80, 0, 0, 0, 0], &seen),
        ReadDo::WriteMode { address: 0x80, mode: 0o100644 }
    ));
    seen.mode = None;
    seen.handle = Some(Some(HandleFacts { in_layer: false, logical_mode: None }));
    assert_eq!(answer_of(next(&seen)), Some(Reply::Continue));
    let cwd = [AT_FDCWD as u64, 0, AT_EMPTY_PATH, 0, 9, 0];
    seen.pinned = None;
    assert!(matches!(handle_cow_statx(&cwd, ByteOrder::Little, &seen), ReadDo::PinCwd));
    let whole = [7, 0, AT_EMPTY_PATH, 0x7ff, 9, 0];
    seen.pinned = Some(Ok(PinnedFd { actual: Some(b"/work/f".to_vec()) }));
    seen.handle = Some(Some(HandleFacts { in_layer: true, logical_mode: None }));
    assert!(matches!(
        handle_cow_statx(&whole, ByteOrder::Little, &seen),
        ReadDo::StatxHandle { flags, mask: 0x7ff } if flags as u64 == AT_EMPTY_PATH
    ));
}

#[test]
fn extended_metadata_shows_the_kept_mode() {
    let args = [AT_FDCWD as u64, 1, AT_SYMLINK_NOFOLLOW, 0x2ff, 9, 0];
    let mut seen = reading("/work/f");
    seen.look = lies_at(Some("/work/f"), Some(0o700));
    assert!(matches!(
        handle_cow_statx(&args, ByteOrder::Little, &seen),
        ReadDo::StatxAt { in_upper: false, rel, flags, mask: 0x2ff }
            if rel == b"f".to_vec() && flags as u64 == AT_SYMLINK_NOFOLLOW
    ));
    let mut buffer = vec![0u8; 256];
    buffer[28] = 0xed;
    buffer[29] = 0x41;
    seen.metadata = Some(Ok(buffer));
    assert!(matches!(
        handle_cow_statx(&args, ByteOrder::Little, &seen),
        ReadDo::WriteBytes { address: 9, bytes } if bytes[28..30] == [0xc0, 0x41]
    ));
    let empty = reading("");
    assert_eq!(answer_of(handle_cow_statx(&args, ByteOrder::Little, &empty)), Some(Reply::Continue));
}

#[test]
fn claimed_paths_can_be_written() {
    let args = [AT_FDCWD as u64, 1, W_OK, 0, 0, 0];
    let mut seen = reading("/work/f");
    assert!(matches!(handle_cow_access(AccessCall::FaccessAt, &args, &seen), ReadDo::LookAtKind { follow: true, .. }));
    seen.is_directory = Some(false);
    assert!(matches!(handle_cow_access(AccessCall::FaccessAt, &args, &seen), ReadDo::LookForPath { .. }));
    seen.exists = Some(true);
    assert_eq!(answer_of(handle_cow_access(AccessCall::FaccessAt, &args, &seen)), Some(Reply::Value(0)));
    seen.exists = Some(false);
    assert_eq!(answer_of(handle_cow_access(AccessCall::FaccessAt, &args, &seen)), Some(Reply::Continue));
    assert_eq!(access_leaf_bits(5, true), 0o500);
}

#[test]
fn stat_calls_are_read_from_their_arguments() {
    let args = [1, 2, 3, AT_SYMLINK_NOFOLLOW, 5, 6];
    let request = parse_stat(StatCall::Lstat, &args);
    assert_eq!((request.path_address, request.buffer, request.follow), (1, 2, false));
    let request = parse_stat(StatCall::NewFstatAt, &args);
    assert_eq!((request.dirfd, request.path_address, request.buffer, request.follow), (1, 2, 3, false));
    assert!(parse_stat(StatCall::FaccessAt, &args).only_exists);
    assert!(!parse_access(AccessCall::FaccessAt2, &args).follow);
    assert!(parse_access(AccessCall::FaccessAt, &args).follow);
    assert_eq!(choose_stat_target(AT_FDCWD as i64, true, 9, &Some(vec![])), StatTarget::Cwd);
    assert_eq!(choose_stat_target(7, true, 0, &None), StatTarget::Descriptor(7));
    assert_eq!(choose_stat_target(7, false, 9, &Some(vec![])), StatTarget::Path);
    assert_eq!(choose_stat_target(7, false, 9, &None), StatTarget::Unreadable);
}

#[test]
fn kept_modes_are_shown() {
    assert_eq!(patch_mode(S_IFDIR | 0o755, Some(0o700)), S_IFDIR | 0o700);
    assert_eq!(patch_mode(S_IFDIR | 0o755, None), S_IFDIR | 0o755);
    let mut buffer = vec![0u8; 256];
    buffer[28] = 0xed;
    buffer[29] = 0x41;
    patch_statx_mode(&mut buffer, Some(0o700), ByteOrder::Little);
    assert_eq!(buffer[28..30], [0xc0, 0x41]);
    buffer[28..30].copy_from_slice(&[0x41, 0xed]);
    patch_statx_mode(&mut buffer, Some(0o700), ByteOrder::Big);
    assert_eq!(buffer[28..30], [0x41, 0xc0]);
    let mut short = vec![1u8; 29];
    patch_statx_mode(&mut short, Some(0), ByteOrder::Little);
    assert_eq!(short, vec![1u8; 29]);
}

#[test]
fn executables_and_links_of_the_upper_are_redirected() {
    let mut seen = reading("/work/x");
    let exec = |seen: &ReadSeen| handle_cow_exec(ExecCall::Execve, &[1, 0x20, 0x30, 0, 0, 0], seen);
    seen.look = lies_at(Some("/work/x"), None);
    assert_eq!(answer_of(exec(&seen)), Some(Reply::Continue));
    seen.look = lies_at(None, None);
    assert_eq!(answer_of(exec(&seen)), Some(Reply::Errno(ENOENT)));
    seen.look = lies_at(Some("/branch/upper/x"), None);
    assert!(matches!(exec(&seen), ReadDo::OpenFile { in_upper: true, .. }));
    seen.opened = Some(true);
    assert!(matches!(exec(&seen), ReadDo::Inject { closes_on_exec: false }));
    seen.injected = Some(Some(9));
    assert!(matches!(exec(&seen), ReadDo::RewriteExec { fd: 9, path: 1, argv: 0x20, envp: 0x30 }));
    let at = [AT_FDCWD as u64, 1, 0x21, 0x31, 0, 0];
    assert!(matches!(
        handle_cow_exec(ExecCall::ExecveAt, &at, &seen),
        ReadDo::RewriteExec { fd: 9, path: 1, argv: 0x21, envp: 0x31 }
    ));
    seen.is_written = Some(false);
    assert_eq!(answer_of(exec(&seen)), Some(Reply::Errno(EFAULT)));
    seen.is_written = Some(true);
    assert_eq!(answer_of(exec(&seen)), Some(Reply::Continue));
    let args = [AT_FDCWD as u64, 1, 2, 3, 0, 0];
    let mut seen = reading("/work/l");
    assert!(matches!(handle_cow_readlink(&args, &seen), ReadDo::ReadSymlink { .. }));
    seen.symlink = Some(Some(b"target".to_vec()));
    assert!(matches!(handle_cow_readlink(&args, &seen), ReadDo::WriteBytes { address: 2, bytes } if bytes == b"tar".to_vec()));
    seen.is_written = Some(true);
    assert_eq!(answer_of(handle_cow_readlink(&args, &seen)), Some(Reply::Value(3)));
    seen.symlink = Some(None);
    assert_eq!(answer_of(handle_cow_readlink(&args, &seen)), Some(Reply::Errno(ENOENT)));
    assert_eq!(rewrite_to_fd(b"/a/long/enough/path", 7), Ok(b"/proc/self/fd/7\0".to_vec()));
    assert_eq!(rewrite_to_fd(b"/a", 7), Err(Reply::Errno(ENOENT)));
}

#[test]
fn listings_hand_out_every_record() {
    let facts = |matches, mode| {
        Some(DirectoryFacts { logical_mode: mode, has_changes: true, matches, rel: Some(b"d".to_vec()) })
    };
    assert_eq!(settle_getdents(&None, b"/u", b"/u/d"), Err(Reply::Continue));
    assert_eq!(settle_getdents(&facts(true, None), b"/u", b"/l/d"), Ok(b"d".to_vec()));
    assert_eq!(settle_getdents(&facts(true, Some(0o600)), b"/u", b"/l/d"), Err(Reply::Errno(EACCES)));
    assert_eq!(settle_getdents(&facts(false, None), b"/u", b"/u/e"), Ok(b"e".to_vec()));
    assert_eq!(settle_getdents(&facts(false, None), b"/u", b"/u"), Ok(b".".to_vec()));
    assert_eq!(settle_getdents(&facts(false, None), b"/u", b"/l"), Err(Reply::Continue));
    assert_eq!(entry_type(true, false), EntryType::Directory);
    assert_eq!(entry_type(false, true), EntryType::Symlink);
    assert_eq!(entry_type(false, false), EntryType::File);
    let mut cache =
        Some(DirectoryCache { target: b"d".to_vec(), entries: vec![vec![1; 4], vec![2; 4], vec![3; 4]] });
    assert_eq!(check_cache(&None, b"d"), CacheStep::Build);
    assert_eq!(check_cache(&cache, b"e"), CacheStep::Build);
    assert_eq!(check_cache(&cache, b"d"), CacheStep::Use);
    let held = cache.as_mut().unwrap();
    assert_eq!(held.drain(9), vec![1, 1, 1, 1, 2, 2, 2, 2]);
    assert_eq!(held.drain(3), Vec::<u8>::new());
    assert_eq!(held.drain(4), vec![3; 4]);
    assert_eq!(check_cache(&cache, b"d"), CacheStep::End);
}

#[test]
fn listings_are_asked_step_by_step() {
    let args = [5, 0x100, 9, 0, 0, 0];
    let mut seen = ListSeen { pinned: None, upper: b"/u".to_vec(), branch: None, is_known: None, names: None, built: None };
    let mut cache = None;
    assert!(matches!(handle_cow_getdents(&args, &seen, &mut cache), ListDo::PinDescriptor { fd: 5 }));
    seen.pinned = Some(Ok(PinnedFd { actual: Some(b"/u/d".to_vec()) }));
    assert!(matches!(handle_cow_getdents(&args, &seen, &mut cache), ListDo::LookAtDirectory { .. }));
    seen.branch =
        Some(Some(DirectoryFacts { logical_mode: None, has_changes: true, matches: false, rel: None }));
    assert!(matches!(handle_cow_getdents(&args, &seen, &mut cache), ListDo::LookForTask));
    seen.is_known = Some(true);
    assert!(matches!(handle_cow_getdents(&args, &seen, &mut cache), ListDo::Merge { rel } if rel == b"d".to_vec()));
    let nowhere = LayerLook { exists: false, is_directory: false, is_symlink: false, inode: None };
    let file = LayerLook { exists: true, inode: Some(7), ..nowhere };
    let name = |name: &[u8], upper: LayerLook, lower: LayerLook| NameLook { name: name.to_vec(), upper, lower };
    seen.names = Some(Some(vec![
        name(b"a", LayerLook { is_symlink: true, inode: Some(9), ..nowhere }, file),
        name(b"b", nowhere, LayerLook { is_directory: true, ..file }),
        name(b"c", file, LayerLook { is_directory: true, ..file }),
        name(b"d", nowhere, nowhere),
    ]));
    let ListDo::Build { records } = handle_cow_getdents(&args, &seen, &mut cache) else { panic!() };
    let planned: Vec<(u64, bool, EntryType, u64)> =
        records.iter().map(|record| (record.offset, record.in_upper, record.kind, record.inode)).collect();
    assert_eq!(
        planned,
        vec![
            (1, true, EntryType::Symlink, 9),
            (2, false, EntryType::Directory, 7),
            (3, true, EntryType::File, 7),
            (4, false, EntryType::File, 0),
        ]
    );
    assert_eq!(records[1].name, b"b".to_vec());
    seen.built = Some(vec![Some(vec![1; 4]), Some(vec![2; 4]), None, Some(vec![3; 4])]);
    let handed = handle_cow_getdents(&args, &seen, &mut cache);
    assert!(matches!(handed, ListDo::Write { address: 0x100, bytes } if bytes == vec![1, 1, 1, 1, 2, 2, 2, 2]));
    let handed = handle_cow_getdents(&args, &seen, &mut cache);
    assert!(matches!(handed, ListDo::Write { address: 0x100, bytes } if bytes == vec![3; 4]));
    assert!(matches!(handle_cow_getdents(&args, &seen, &mut cache), ListDo::Answer(Reply::Value(0))));
    assert!(cache.is_none());
    assert_eq!(finish_getdents(8, true), Reply::Value(8));
    assert_eq!(finish_getdents(8, false), Reply::Continue);
    assert_eq!(finish_getdents(0, false), Reply::Value(0));
}

#[test]
fn directories_are_changed_into() {
    let mut seen = reading("/work/a/long/directory");
    let chdir = |seen: &ReadSeen| handle_cow_chdir(&[1, 0, 0, 0, 0, 0], seen);
    assert!(matches!(chdir(&seen), ReadDo::FindRel { .. }));
    seen.rel = Some(Some(b"a/long/directory".to_vec()));
    assert!(matches!(chdir(&seen), ReadDo::LookForDirectory { .. }));
    seen.kernel_knows = Some(false);
    assert!(matches!(chdir(&seen), ReadDo::LookInUpper { .. }));
    seen.upper_has = Some(true);
    assert!(matches!(chdir(&seen), ReadDo::OpenDirectory { .. }));
    seen.opened = Some(true);
    assert!(matches!(chdir(&seen), ReadDo::Inject { closes_on_exec: true }));
    seen.injected = Some(Some(4));
    assert!(matches!(chdir(&seen), ReadDo::RewritePath { address: 1, bytes } if bytes == b"/proc/self/fd/4\0".to_vec()));
    seen.is_written = Some(true);
    assert!(matches!(chdir(&seen), ReadDo::Remember { cwd } if cwd == b"/work/a/long/directory".to_vec()));
    seen.kernel_knows = Some(true);
    assert_eq!(answer_of(chdir(&seen)), Some(Reply::Continue));
}

#[test]
fn directories_are_entered_through_descriptors_that_may_be_searched() {
    let mut seen = reading("");
    seen.walk.layers = None;
    seen.walk.matches = None;
    let fchdir = |seen: &ReadSeen| handle_cow_fchdir(&[5, 0, 0, 0, 0, 0], seen);
    assert!(matches!(fchdir(&seen), ReadDo::PinDescriptor { fd: 5 }));
    seen.pinned = Some(Err(EPERM));
    assert_eq!(answer_of(fchdir(&seen)), Some(Reply::Errno(EPERM)));
    seen.pinned = Some(Ok(PinnedFd { actual: Some(b"/branch/upper/d".to_vec()) }));
    assert!(matches!(fchdir(&seen), ReadDo::StatHandle));
    seen.mode = Some(Ok(0o100755));
    assert_eq!(answer_of(fchdir(&seen)), Some(Reply::Errno(ENOTDIR)));
    seen.mode = Some(Ok(S_IFDIR | 0o755));
    assert!(matches!(fchdir(&seen), ReadDo::Walk(WalkStep::ReadLayers)));
    seen.walk.layers = Some(None);
    assert_eq!(answer_of(fchdir(&seen)), Some(Reply::Continue));
    seen.walk.layers = reading("").walk.layers;
    assert!(matches!(fchdir(&seen), ReadDo::Walk(WalkStep::Match { path }) if path == b"/work/d".to_vec()));
    seen.walk.matches = Some(false);
    assert_eq!(answer_of(fchdir(&seen)), Some(Reply::Continue));
    seen.walk.matches = Some(true);
    assert!(matches!(fchdir(&seen), ReadDo::LookAtHandle { .. }));
    seen.handle = Some(Some(HandleFacts { in_layer: true, logical_mode: Some(0o600) }));
    assert_eq!(answer_of(fchdir(&seen)), Some(Reply::Errno(EACCES)));
    seen.handle = Some(Some(HandleFacts { in_layer: true, logical_mode: None }));
    assert!(matches!(fchdir(&seen), ReadDo::Forget));
    seen.pinned = Some(Ok(PinnedFd { actual: None }));
    assert_eq!(answer_of(fchdir(&seen)), Some(Reply::Errno(EBADF)));
}

#[test]
fn descriptors_of_a_snapshot_keep_their_metadata() {
    let mut seen = reading("");
    let change = |seen: &ReadSeen| handle_cow_fd_metadata(&[5, 0, 0, 0, 0, 0], seen);
    assert!(matches!(change(&seen), ReadDo::PinDescriptor { fd: 5 }));
    seen.pinned = Some(Ok(PinnedFd { actual: None }));
    assert_eq!(answer_of(change(&seen)), Some(Reply::Errno(EBADF)));
    seen.pinned = Some(Ok(PinnedFd { actual: Some(b"/work/d".to_vec()) }));
    assert!(matches!(change(&seen), ReadDo::ReadBranch));
    seen.branch = Some(None);
    assert_eq!(answer_of(change(&seen)), Some(Reply::Continue));
    seen.branch = Some(Some(BranchFacts { layers: layers(), snapshot_backed: true }));
    assert_eq!(answer_of(change(&seen)), Some(Reply::Errno(EPERM)));
    seen.branch = Some(Some(BranchFacts { layers: layers(), snapshot_backed: false }));
    assert_eq!(answer_of(change(&seen)), Some(Reply::Continue));
    seen.pinned = Some(Err(EBADF));
    assert_eq!(answer_of(change(&seen)), Some(Reply::Errno(EBADF)));
}

#[test]
fn the_working_directory_has_the_name_of_the_lower() {
    let args = [1, 64, 0, 0, 0, 0];
    let mut seen = reading("");
    assert!(matches!(handle_cow_getcwd(&args, &seen), ReadDo::Walk(WalkStep::ReadVirtualCwd)));
    seen.walk.virtual_cwd = Some(None);
    assert!(matches!(handle_cow_getcwd(&args, &seen), ReadDo::Walk(WalkStep::ReadCwd)));
    seen.walk.link = Some(Some(b"/branch/upper/d".to_vec()));
    assert!(matches!(handle_cow_getcwd(&args, &seen), ReadDo::WriteBytes { address: 1, bytes } if bytes == b"/work/d\0".to_vec()));
    seen.is_written = Some(true);
    assert_eq!(answer_of(handle_cow_getcwd(&args, &seen)), Some(Reply::Value(8)));
    assert_eq!(answer_of(handle_cow_getcwd(&[1, 7, 0, 0, 0, 0], &seen)), Some(Reply::Errno(ERANGE)));
    seen.walk.link = Some(Some(b"/home".to_vec()));
    assert_eq!(answer_of(handle_cow_getcwd(&args, &seen)), Some(Reply::Continue));
}

#[test]
fn times_are_set_in_the_upper() {
    let args = [AT_FDCWD as u64, 1, 2, 0, 0, 0];
    let mut seen = reading("/work/f");
    let next = |seen: &ReadSeen| handle_cow_utimensat(&args, seen);
    assert!(matches!(next(&seen), ReadDo::Lead { follow: true, .. }));
    seen.led = Some(Ok(b"/work/f".to_vec()));
    assert!(matches!(next(&seen), ReadDo::CopyUp { .. }));
    seen.upper = Some(Err(BranchFault::QuotaExceeded));
    assert_eq!(answer_of(next(&seen)), Some(Reply::Errno(ENOSPC)));
    seen.upper = Some(Ok(Some(b"/branch/upper/f".to_vec())));
    assert!(matches!(next(&seen), ReadDo::ReadTimes { address: 2, size: 32 }));
    seen.times = Some(None);
    assert_eq!(answer_of(next(&seen)), Some(Reply::Errno(EFAULT)));
    seen.times = Some(Some(vec![7; 32]));
    assert!(matches!(
        next(&seen),
        ReadDo::Stamp { in_upper: true, rel, times: Some(times), follow: true }
            if rel == b"f".to_vec() && times == vec![7; 32]
    ));
    let now = [AT_FDCWD as u64, 1, 0, AT_SYMLINK_NOFOLLOW, 0, 0];
    assert!(matches!(handle_cow_utimensat(&now, &seen), ReadDo::Stamp { times: None, follow: false, .. }));
    seen.stamped = Some(Ok(()));
    assert_eq!(answer_of(next(&seen)), Some(Reply::Value(0)));
}

#[test]
fn writes_are_known_by_their_numbers() {
    assert_eq!(write_call(263, &numbers()), Some(WriteCall::UnlinkAt));
    assert_eq!(write_call(76, &numbers()), Some(WriteCall::Truncate));
    assert_eq!(write_call(0, &numbers()), None);
    let args = [3, 11, 4, 12, 0, 0];
    let (first, second) = cow_write_paths(WriteCall::RenameAt2, &args);
    assert_eq!((first.dirfd, first.address), (3, 11));
    assert_eq!(second.map(|named| (named.dirfd, named.address)), Some((4, 12)));
    let (first, second) = cow_write_paths(WriteCall::SymlinkAt, &args);
    assert_eq!((first.dirfd, first.address), (11, 4));
    assert!(second.is_none());
}

#[test]
fn writes_are_read_with_their_paths() {
    let op = parse_cow_write(
        WriteCall::UnlinkAt,
        &[0, 0, AT_REMOVEDIR, 0, 0, 0],
        b"/work/d".to_vec(),
        None,
        None,
        None,
    )
    .unwrap();
    assert_eq!(op.kind(), WriteKind::Unlink { is_dir: true });
    assert_eq!(op.paths(), vec![b"/work/d".to_vec()]);
    let op = parse_cow_write(
        WriteCall::Mkdir,
        &[0, 0o777, 0, 0, 0, 0],
        b"/work/d".to_vec(),
        None,
        None,
        Some(0o22),
    )
    .unwrap();
    assert_eq!(op.kind(), WriteKind::Mkdir { permissions: 0o755 });
    assert_eq!(op.creation_target(), Some(b"/work/d".to_vec()));
    let op = parse_cow_write(
        WriteCall::Link,
        &[0; 6],
        b"/branch/upper/a".to_vec(),
        Some(b"/work/b".to_vec()),
        None,
        None,
    )
    .unwrap()
    .remap_upper_paths(&layers());
    assert_eq!(op.paths(), vec![b"/work/a".to_vec(), b"/work/b".to_vec()]);
    assert_eq!(op.follows(), vec![false, false]);
    assert_eq!(op.copy_rel(), Some((b"/work/b".to_vec(), b"/work/a".to_vec())));
    assert!(parse_cow_write(WriteCall::Link, &[0; 6], b"/a".to_vec(), None, None, None).is_none());
    assert!(parse_cow_write(WriteCall::Symlink, &[0; 6], b"/a".to_vec(), None, None, None).is_none());
}

#[test]
fn writes_are_checked_before_they_run() {
    let mkdir = CowWriteOp::Mkdir { path: b"/work/d".to_vec(), permissions: 0o755 };
    let facts = || WriteFacts {
        target_exists: false,
        parent: Ok(()),
        is_symlink: false,
        paths: vec![PathFacts { matches: true, access: Ok(()) }],
    };
    assert_eq!(check_write(&mkdir, &facts()), None);
    assert_eq!(check_write(&mkdir, &WriteFacts { target_exists: true, ..facts() }), Some(Reply::Errno(EEXIST)));
    assert_eq!(check_write(&mkdir, &WriteFacts { parent: Err(EACCES), ..facts() }), Some(Reply::Errno(EACCES)));
    let denied = WriteFacts { paths: vec![PathFacts { matches: true, access: Err(EPERM) }], ..facts() };
    assert_eq!(check_write(&mkdir, &denied), Some(Reply::Errno(EPERM)));
    let chmod = CowWriteOp::Chmod { path: b"/work/l".to_vec(), permissions: 0o600, follow_final: false };
    assert_eq!(check_write(&chmod, &WriteFacts { is_symlink: true, ..facts() }), Some(Reply::Errno(EOPNOTSUPP)));
    assert_eq!(check_run(&mkdir, true, Ok(()), true, true), None);
    assert_eq!(copy_fault_reply(BranchFault::QuotaExceeded), Reply::Errno(ENOSPC));
    assert_eq!(cow_result(Ok(true)), Reply::Value(0));
    assert_eq!(unlink_result(Ok(true)), Reply::Value(0));
    assert_eq!(unlink_result(Err(EPERM)), Reply::Errno(EPERM));
}

#[test]
fn descriptors_do_not_get_around_a_branch() {
    let pinned = |path: &[u8]| Ok(PinnedFd { actual: Some(path.to_vec()) });
    let branch = |snapshot_backed| Some(BranchFacts { layers: layers(), snapshot_backed });
    assert_eq!(check_fd_metadata(&pinned(b"/etc/x"), &branch(true)), Reply::Continue);
    assert_eq!(check_fd_metadata(&pinned(b"/work/x"), &None), Reply::Continue);
    assert_eq!(check_fd_metadata(&Err(EPERM), &branch(true)), Reply::Errno(EPERM));
    assert_eq!(check_fd_metadata(&pinned(b"/work/x"), &branch(true)), Reply::Errno(EPERM));
}

fn writing(first: &str, second: Option<&str>) -> WriteSeen {
    WriteSeen {
        first: claimed(first),
        second: match second {
            Some(path) => claimed(path),
            None => WalkSeen::nothing(),
        },
        pinned: None,
        branch: None,
        target: None,
        umask: None,
        resolved: None,
        facts: None,
        copy: None,
        copied: None,
        run: None,
        outcome: None,
    }
}

fn answer_of_write(step: WriteDo) -> Option<Reply> {
    match step {
        WriteDo::First(WalkStep::Answer(reply)) => Some(reply),
        _ => None,
    }
}

#[test]
fn changes_are_asked_step_by_step() {
    let args = [1, 0o600, 0, 0, 0, 0];
    let next = |seen: &WriteSeen| handle_cow_write(WriteCall::Chmod, &args, seen);
    let mut seen = writing("/work/f", None);
    assert!(matches!(next(&seen), WriteDo::Resolve { op } if op.paths() == vec![b"/work/f".to_vec()]));
    seen.resolved = Some(Ok(vec![b"/work/g".to_vec()]));
    assert!(matches!(next(&seen), WriteDo::Look { op } if op.paths() == vec![b"/work/g".to_vec()]));
    seen.facts = Some(WriteFacts {
        target_exists: false,
        parent: Ok(()),
        is_symlink: false,
        paths: vec![PathFacts { matches: true, access: Ok(()) }],
    });
    assert!(matches!(next(&seen), WriteDo::PlanCopy { path, .. } if path == b"/work/g".to_vec()));
    seen.copy = Some(CopyLook::Refused(BranchFault::QuotaExceeded));
    assert_eq!(answer_of_write(next(&seen)), Some(Reply::Errno(ENOSPC)));
    seen.copy = Some(CopyLook::NeedsCopy { rel: b"g".to_vec(), file_size: 12 });
    assert!(matches!(next(&seen), WriteDo::Copy { rel } if rel == b"g".to_vec()));
    seen.copied = Some(false);
    assert!(matches!(next(&seen), WriteDo::GiveBack { bytes: 12, reply: Reply::Errno(EIO) }));
    seen.copied = Some(true);
    assert!(matches!(next(&seen), WriteDo::LookAgain { .. }));
    seen.run = Some(Some(RunFacts { parent: Ok(()), first_matches: true, second_matches: false }));
    assert!(matches!(next(&seen), WriteDo::Run { .. }));
    seen.outcome = Some(RunOutcome::Changed(Ok(true)));
    assert_eq!(answer_of_write(next(&seen)), Some(Reply::Value(0)));
    seen.outcome = Some(RunOutcome::Changed(Err(BranchFault::Deleted)));
    assert_eq!(answer_of_write(next(&seen)), Some(Reply::Errno(ENOENT)));
    seen.run = Some(None);
    assert_eq!(answer_of_write(next(&seen)), Some(Reply::Continue));
}

#[test]
fn new_entries_are_made_with_the_mask_and_target_of_the_task() {
    let args = [AT_FDCWD as u64, 1, 0o777, 0, 0, 0];
    let mut seen = writing("/work/d", None);
    assert!(matches!(handle_cow_write(WriteCall::MkdirAt, &args, &seen), WriteDo::ReadUmask));
    seen.umask = Some(None);
    assert!(matches!(
        handle_cow_write(WriteCall::MkdirAt, &args, &seen),
        WriteDo::Resolve { op } if op.kind() == WriteKind::Mkdir { permissions: 0 }
    ));
    let link = [0x500, AT_FDCWD as u64, 1, 0, 0, 0];
    let mut seen = writing("/work/l", None);
    assert!(matches!(
        handle_cow_write(WriteCall::SymlinkAt, &link, &seen),
        WriteDo::ReadTarget { address: 0x500 }
    ));
    seen.target = Some(None);
    assert_eq!(answer_of_write(handle_cow_write(WriteCall::SymlinkAt, &link, &seen)), Some(Reply::Continue));
}

#[test]
fn hard_links_stay_on_one_side() {
    let args = [1, 2, 0, 0, 0, 0];
    let mut seen = writing("/work/a", Some("/etc/b"));
    seen.resolved = Some(Ok(vec![b"/work/a".to_vec(), b"/etc/b".to_vec()]));
    seen.facts = Some(WriteFacts { target_exists: false, parent: Ok(()), is_symlink: false, paths: vec![] });
    seen.copy = Some(CopyLook::Unclaimed);
    seen.run = Some(Some(RunFacts { parent: Ok(()), first_matches: true, second_matches: false }));
    assert_eq!(answer_of_write(handle_cow_write(WriteCall::Link, &args, &seen)), Some(Reply::Errno(EXDEV)));
}

#[test]
fn descriptors_of_snapshots_keep_their_permissions() {
    let args = [7, 1, 0o600, AT_EMPTY_PATH, 0, 0];
    let next = |seen: &WriteSeen| handle_cow_write(WriteCall::FchmodAt2, &args, seen);
    let mut seen = writing("", None);
    assert!(matches!(next(&seen), WriteDo::PinDescriptor { fd: 7 }));
    seen.pinned = Some(Ok(PinnedFd { actual: Some(b"/work/f".to_vec()) }));
    assert!(matches!(next(&seen), WriteDo::ReadBranch));
    seen.branch = Some(Some(BranchFacts { layers: layers(), snapshot_backed: true }));
    assert_eq!(answer_of_write(next(&seen)), Some(Reply::Errno(EPERM)));
    let odd = [7, 1, 0o600, 1, 0, 0];
    assert_eq!(answer_of_write(handle_cow_write(WriteCall::FchmodAt2, &odd, &seen)), Some(Reply::Errno(EINVAL)));
    let mut named = writing("/dev/fd/9", None);
    assert!(matches!(handle_cow_write(WriteCall::Chmod, &[1, 0, 0, 0, 0, 0], &named), WriteDo::ReadBranch));
    named.branch = Some(Some(BranchFacts { layers: layers(), snapshot_backed: true }));
    assert_eq!(
        answer_of_write(handle_cow_write(WriteCall::Chmod, &[1, 0, 0, 0, 0, 0], &named)),
        Some(Reply::Errno(EPERM))
    );
}

#[test]
fn paths_of_descriptors_are_read_as_text() {
    let args = [5, 0x100, 9, 0, 0, 0];
    let pinned = |actual: &[u8]| ListSeen {
        pinned: Some(Ok(PinnedFd { actual: Some(actual.to_vec()) })),
        upper: b"/u".to_vec(),
        branch: None,
        is_known: None,
        names: None,
        built: None,
    };
    let asked = |seen: ListSeen| match handle_cow_getdents(&args, &seen, &mut None) {
        ListDo::LookAtDirectory { actual } => actual,
        _ => panic!("the directory was not looked at"),
    };
    assert_eq!(asked(pinned("/u/\u{e4}".as_bytes())), "/u/\u{e4}".as_bytes().to_vec());
    assert_eq!(asked(pinned(b"/u/\xff")), "/u/\u{fffd}".as_bytes().to_vec());
}

