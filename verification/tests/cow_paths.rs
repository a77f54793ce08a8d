use sandlock_core::cow::paths::{
    apply_umask, check_relative_resolution_base, is_magic_fd_path, magic_fd, resolve_at_path,
    resolve_openat2_lexical_path, tracee_umask, BaseFacts, Layers, MagicFd, PathReader,
};
use sandlock_core::cow::walk::{WalkSeen, WalkStep};
use sandlock_core::cow::Reply;
use sandlock_core::sys::{
    AT_FDCWD, EACCES, EBADF, EINVAL, ENOENT, ENOTDIR, EXDEV, RESOLVE_BENEATH, RESOLVE_IN_ROOT, S_IFDIR,
};

fn layers() -> Layers {
    Layers { workdir: b"/work".to_vec(), upper: b"/branch/upper".to_vec() }
}

#[test]
fn refuses_path_under_neither_root() {
    assert_eq!(layers().pick_root_rel(b"/etc/passwd").err(), Some(EACCES));
    let found = layers().pick_root_rel(b"/branch/upper/a/b").ok().unwrap();
    assert!(found.in_upper);
    assert_eq!(found.rel, b"a/b".to_vec());
    let found = layers().pick_root_rel(b"/work/a").ok().unwrap();
    assert!(!found.in_upper);
    assert_eq!(found.rel, b"a".to_vec());
}

#[test]
fn upper_paths_are_known_under_the_workdir() {
    assert_eq!(layers().map_upper_path(b"/branch/upper/a/../b"), b"/work/b".to_vec());
    assert_eq!(layers().map_upper_path(b"/etc/./x"), b"/etc/x".to_vec());
}

#[test]
fn paths_are_read_page_by_page() {
    let mut reader = PathReader::begin(4090).unwrap();
    assert_eq!(reader.next(), Some((4090, 6)));
    assert!(!reader.push(b"/tmp/a"));
    let (address, size) = reader.next().unwrap();
    assert_eq!(address, 4096);
    assert!(size <= 4096);
    assert!(reader.push(b"bc\0rest"));
    assert_eq!(reader.finish(), Some(b"/tmp/abc".to_vec()));
    assert!(PathReader::begin(0).is_none());
}

#[test]
fn descriptors_are_named_through_filesystems() {
    match magic_fd(b"/dev/fd/12/x") {
        Some(MagicFd::Own { fd, tail }) => assert_eq!((fd, tail), (12, b"x".to_vec())),
        _ => panic!("not a descriptor"),
    }
    match magic_fd(b"/proc/77/task/78/fd/3/y/z") {
        Some(MagicFd::Listed { link, tail }) => {
            assert_eq!(link, b"/proc/77/task/78/fd/3".to_vec());
            assert_eq!(tail, b"y/z".to_vec());
        }
        _ => panic!("not a descriptor"),
    }
    assert!(matches!(magic_fd(b"/dev/stderr"), Some(MagicFd::Own { fd: 2, .. })));
    assert!(magic_fd(b"/dev/fd/x").is_none());
    assert!(is_magic_fd_path(b"/proc/self/fd/x"));
    assert!(!is_magic_fd_path(b"/proc/self/maps"));
}

#[test]
fn paths_are_followed_from_their_base() {
    assert_eq!(resolve_at_path(b"../x", &Some(b"/a/b".to_vec())), b"/a/x".to_vec());
    assert_eq!(resolve_at_path(b"/a//b/", &None), b"/a/b".to_vec());
    assert_eq!(resolve_at_path(b"/dev/fd/3/../z", &Some(b"/a/b".to_vec())), b"/a/z".to_vec());
}

#[test]
fn bounded_paths_stay_beneath_their_directory() {
    let base = Some(b"/a/b".to_vec());
    let plain = || b"/plain".to_vec();
    let beneath = |written: &[u8]| resolve_openat2_lexical_path(written, RESOLVE_BENEATH, &base, plain());
    assert_eq!(beneath(b"x/../y").ok().unwrap().path, b"/a/b/y".to_vec());
    assert_eq!(beneath(b"x/../../y").err(), Some(EXDEV));
    assert_eq!(beneath(b"/y").err(), Some(EXDEV));
    let in_root = resolve_openat2_lexical_path(b"/../../y", RESOLVE_IN_ROOT, &base, plain());
    assert_eq!(in_root.ok().unwrap().path, b"/a/b/y".to_vec());
    let both = resolve_openat2_lexical_path(b"y", RESOLVE_IN_ROOT | RESOLVE_BENEATH, &base, plain());
    assert_eq!(both.err(), Some(EINVAL));
    assert_eq!(resolve_openat2_lexical_path(b"y", RESOLVE_BENEATH, &None, plain()).err(), Some(EBADF));
    let free = resolve_openat2_lexical_path(b"y", 0, &None, plain()).ok().unwrap();
    assert_eq!(free.path, plain());
    assert!(free.base.is_none());
}

#[test]
fn directories_that_may_not_be_searched_are_no_base() {
    let facts = BaseFacts { mode: Ok(S_IFDIR | 0o755), path_known: true, in_layer: true, logical_mode: None };
    assert_eq!(check_relative_resolution_base(b"x", true, Ok(facts)), Ok(()));
    let hidden = BaseFacts { logical_mode: Some(0o600), ..facts };
    assert_eq!(check_relative_resolution_base(b"x", true, Ok(hidden)), Err(EACCES));
    assert_eq!(check_relative_resolution_base(b"/x", true, Ok(hidden)), Ok(()));
    assert_eq!(check_relative_resolution_base(b"x", false, Ok(hidden)), Ok(()));
    let file = BaseFacts { mode: Ok(0o100644), ..facts };
    assert_eq!(check_relative_resolution_base(b"x", true, Ok(file)), Err(ENOTDIR));
    let lost = BaseFacts { path_known: false, ..facts };
    assert_eq!(check_relative_resolution_base(b"x", true, Ok(lost)), Err(EBADF));
    assert_eq!(check_relative_resolution_base(b"x", true, Err(ENOENT)), Err(ENOENT));
}

#[test]
fn new_entries_lose_what_the_mask_names() {
    assert_eq!(tracee_umask(b"Name:\tx\nUmask:\t0027\nState:\tS\n"), Some(0o27));
    assert_eq!(tracee_umask(b"Name:\tx\n"), None);
    assert_eq!(tracee_umask(b"Umask:\t8\n"), None);
    assert_eq!(apply_umask(0o4777, Some(0o22)), 0o4755);
    assert_eq!(apply_umask(0o777, None), 0);
}

#[test]
fn the_way_to_a_path_of_the_branch_is_asked_step_by_step() {
    let mut seen = WalkSeen::nothing();
    let next = |seen: &WalkSeen| seen.find_open(AT_FDCWD as i64, 0x100, 0o100);
    assert!(matches!(next(&seen), Err(WalkStep::ReadPath { address: 0x100 })));
    seen.written = Some(Some(b"sub/../f".to_vec()));
    assert!(matches!(next(&seen), Err(WalkStep::LookForBranch)));
    seen.has_branch = Some(true);
    assert!(matches!(next(&seen), Err(WalkStep::LookAtBase { .. })));
    seen.base = Some(Ok(BaseFacts { mode: Ok(S_IFDIR | 0o755), path_known: true, in_layer: true, logical_mode: None }));
    assert!(matches!(next(&seen), Err(WalkStep::ReadVirtualCwd)));
    seen.virtual_cwd = Some(None);
    assert!(matches!(next(&seen), Err(WalkStep::ReadCwd)));
    seen.link = Some(Some(b"/branch/upper/d".to_vec()));
    assert!(matches!(next(&seen), Err(WalkStep::ReadLayers)));
    seen.layers = Some(Some(layers()));
    assert!(matches!(next(&seen), Err(WalkStep::Match { path }) if path == b"/work/d/f".to_vec()));
    seen.matches = Some(true);
    assert!(matches!(next(&seen), Err(WalkStep::CheckAccess { path, bits: 0o100 }) if path == b"/work/d/f".to_vec()));
    seen.access = Some(Ok(()));
    assert!(matches!(next(&seen), Ok(path) if path == b"/work/d/f".to_vec()));
    seen.access = Some(Err(EACCES));
    assert!(matches!(next(&seen), Err(WalkStep::Answer(Reply::Errno(EACCES)))));
    seen.matches = Some(false);
    assert!(matches!(next(&seen), Err(WalkStep::Answer(Reply::Continue))));
    seen.virtual_cwd = Some(Some(b"/work/v".to_vec()));
    seen.matches = None;
    assert!(matches!(next(&seen), Err(WalkStep::Match { path }) if path == b"/work/v/f".to_vec()));
}

#[test]
fn absolute_paths_need_no_base() {
    let mut seen = WalkSeen::nothing();
    seen.written = Some(Some(b"/work/f".to_vec()));
    assert!(matches!(seen.find_place(3, 1), Ok(place) if place == b"/work/f".to_vec()));
    seen.written = Some(Some(b"/dev/fd/9/x".to_vec()));
    assert!(matches!(seen.find_place(3, 1), Err(WalkStep::ReadDescriptor { fd: 9 })));
    seen.written = Some(Some(b"/proc/5/fd/9/x".to_vec()));
    assert!(matches!(seen.find_place(3, 1), Err(WalkStep::ReadLink { link }) if link == b"/proc/5/fd/9".to_vec()));
    seen.link = Some(Some(b"/work/d".to_vec()));
    assert!(matches!(seen.find_place(3, 1), Ok(place) if place == b"/work/d/x".to_vec()));
}
