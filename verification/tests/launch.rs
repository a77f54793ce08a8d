use sandlock_core::bootstrap::{parse_args, write_filter, SockFilter};
use sandlock_core::bubblewrap::environment::{child_environment, EnvironmentPolicy, Variable};
use sandlock_core::bubblewrap::launch::{BootstrapFds, DeviceLook, Launch};
use sandlock_core::bubblewrap::mounting::{Opened, StartPlaces};
use sandlock_core::bubblewrap::payload::make_filter_payload;
use sandlock_core::bubblewrap::{
    check_listener_frame, count_descriptors, deny_source, exec_child, open_entry, open_files_limit, read_listener,
    version_identity, ChildSetup, LaunchFault, ListenerFault, SetupStep, SourceOutcome,
};
use sandlock_core::filesystem_backend::{EntryPurpose, FilesystemEntry, FilesystemPlan, MountAccess};

fn entry(guest: &str, host: &str, access: MountAccess, purpose: EntryPurpose) -> FilesystemEntry {
    FilesystemEntry {
        guest_path: guest.as_bytes().to_vec(),
        host_source: host.as_bytes().to_vec(),
        access,
        purpose,
    }
}

fn variable(name: &str, value: &str) -> Variable {
    Variable { name: name.as_bytes().to_vec(), value: value.as_bytes().to_vec() }
}

fn policy() -> EnvironmentPolicy {
    EnvironmentPolicy { clean: false, strip: Vec::new(), env: Vec::new(), gpu_devices: None }
}

fn texts(list: &[Vec<u8>]) -> Vec<&str> {
    list.iter().map(|word| std::str::from_utf8(word).unwrap()).collect()
}

#[test]
fn only_absent_read_policy_sources_are_optional() {
    let optional = entry("/optional/config", "/missing/config", MountAccess::ReadOnly, EntryPurpose::PolicyGrant);
    assert_eq!(open_entry(&optional, SourceOutcome::NotFound), Ok(None));
    assert_eq!(open_entry(&optional, SourceOutcome::Opened(5)), Ok(Some(5)));
    assert_eq!(open_entry(&optional, SourceOutcome::Failed), Err(LaunchFault::Open));
    for (access, purpose) in [
        (MountAccess::ReadWrite, EntryPurpose::PolicyGrant),
        (MountAccess::DeviceReadOnly, EntryPurpose::PolicyGrant),
        (MountAccess::ReadOnly, EntryPurpose::CowLower),
        (MountAccess::ReadOnly, EntryPurpose::ExplicitMount),
    ] {
        let needed = entry("/optional/config", "/missing/config", access, purpose);
        assert_eq!(open_entry(&needed, SourceOutcome::NotFound), Err(LaunchFault::Open));
    }
}

#[test]
fn the_launcher_is_known_by_the_last_word_of_its_version() {
    assert_eq!(version_identity("bubblewrap 0.9.0\n"), Some("bwrap-0.9.0".to_string()));
    assert_eq!(version_identity(" \n"), None);
}

#[test]
fn denied_paths_are_masked_by_the_innermost_mount() {
    let entries = vec![
        entry("/", "/image", MountAccess::ReadOnly, EntryPurpose::PolicyGrant),
        entry("/work", "/host/work", MountAccess::ReadWrite, EntryPurpose::PolicyGrant),
        entry("/work", "/later", MountAccess::ReadWrite, EntryPurpose::PolicyGrant),
    ];
    assert_eq!(deny_source(&entries, b"/work/secret"), Some(b"/later/secret".to_vec()));
    assert_eq!(deny_source(&entries, b"/etc"), Some(b"/image/etc".to_vec()));
    assert_eq!(deny_source(&entries[1..].iter().map(|e| entry("/work", std::str::from_utf8(&e.host_source).unwrap(), e.access, e.purpose)).collect(), b"/etc"), None);
}

#[test]
fn listener_frames_are_checked() {
    assert_eq!(count_descriptors(24, 16, 3), Ok(2));
    assert_eq!(count_descriptors(16, 16, 3), Err(ListenerFault::Descriptors));
    assert_eq!(count_descriptors(19, 16, 3), Err(ListenerFault::Descriptors));
    assert_eq!(count_descriptors(36, 16, 3), Err(ListenerFault::Descriptors));
    let frame = b"SLNF\x07\0\0\0\x01\0\0\0\x02\0\0\0";
    assert_eq!(check_listener_frame(16, frame, false, 3, 4), Ok(2));
    assert_eq!(check_listener_frame(16, frame, false, 2, 4), Err(ListenerFault::Frame));
    assert_eq!(check_listener_frame(16, frame, true, 3, 4), Err(ListenerFault::Frame));
    assert_eq!(check_listener_frame(16, frame, false, 3, 1), Err(ListenerFault::Frame));
    assert_eq!(check_listener_frame(15, frame, false, 3, 4), Err(ListenerFault::Frame));
    assert_eq!(check_listener_frame(16, b"SLNX\x07\0\0\0\x01\0\0\0\x02\0\0\0", false, 3, 4), Err(ListenerFault::Frame));
    assert_eq!(read_listener(frame), Ok((7, true)));
    assert_eq!(read_listener(b"SLNF\0\0\0\0\x01\0\0\0\x02\0\0\0"), Err(ListenerFault::Pid));
    assert_eq!(read_listener(b"SLNF\x07\0\0\0\x02\0\0\0\x02\0\0\0"), Err(ListenerFault::WaitMode));
}

#[test]
fn a_child_is_set_up_before_it_becomes_the_launcher() {
    let bare = ChildSetup {
        session_created: true,
        foreground_terminal: false,
        no_randomize_memory: false,
        has_cores: false,
        no_huge_pages: false,
        no_coredump: false,
        limits_open_files: false,
    };
    assert_eq!(exec_child(bare), vec![SetupStep::DieWithParent, SetupStep::KeepDescriptors, SetupStep::Exec]);
    let steps = exec_child(ChildSetup { session_created: false, limits_open_files: true, ..bare });
    assert_eq!(
        steps,
        vec![
            SetupStep::OwnProcessGroup,
            SetupStep::DieWithParent,
            SetupStep::LimitOpenFiles,
            SetupStep::KeepDescriptors,
            SetupStep::Exec,
        ]
    );
    assert_eq!(open_files_limit(100, 1024, 4096), 100);
}

#[test]
fn stripped_variables_are_gone() {
    let inherited = vec![variable("PATH", "/bin"), variable("SECRET", "x"), variable("HOME", "/root")];
    let mut asked = policy();
    asked.strip = vec![b"SECRET".to_vec()];
    asked.env = vec![variable("HOME", "/work")];
    let list = child_environment(&asked, &inherited).unwrap();
    assert_eq!(texts(&list), vec!["HOME=/work", "PATH=/bin"]);
    asked.clean = true;
    let list = child_environment(&asked, &inherited).unwrap();
    assert_eq!(texts(&list), vec!["HOME=/work"]);
}

#[test]
fn visible_devices_are_listed_by_their_numbers() {
    let mut asked = policy();
    asked.gpu_devices = Some(vec![0, 12]);
    let list = child_environment(&asked, &vec![]).unwrap();
    assert_eq!(texts(&list), vec!["CUDA_VISIBLE_DEVICES=0,12", "ROCR_VISIBLE_DEVICES=0,12"]);
}

#[test]
fn variables_that_cannot_be_handed_over_are_refused() {
    let mut asked = policy();
    asked.env = vec![variable("A=B", "x")];
    assert_eq!(child_environment(&asked, &vec![]).err(), Some(LaunchFault::EqualsInName));
    asked.env = vec![variable("A", "x\0y")];
    assert_eq!(child_environment(&asked, &vec![]).err(), Some(LaunchFault::NulByte));
}

#[test]
fn the_payload_starts_with_the_filter() {
    let filter = vec![SockFilter { code: 6, jt: 0, jf: 0, k: 0x7fff0000 }];
    let payload = make_filter_payload(&filter, &vec![b"A=1".to_vec()], &vec![b"/dev/null".to_vec()], 16, 4).unwrap();
    let mut expected = write_filter(&filter);
    expected.extend(b"\x01\0\0\0\x03\0\0\0A=1\x01\0\0\0\x09\0\0\0/dev/null");
    assert_eq!(payload, expected);
    assert_eq!(
        make_filter_payload(&filter, &vec![vec![b'x'; 17]], &vec![], 16, 4).err(),
        Some(LaunchFault::StringsExceedLimit)
    );
    assert_eq!(
        make_filter_payload(&filter, &vec![], &vec![b"/d".to_vec(), b"/e".to_vec()], 16, 1).err(),
        Some(LaunchFault::StringsExceedLimit)
    );
}

#[test]
fn the_bootstrap_reads_what_the_launch_tells_it() {
    let mut launch = Launch::start(Some((1000, 100)));
    let usr = entry("/usr", "/usr", MountAccess::ReadOnly, EntryPurpose::PolicyGrant);
    let null = entry("/dev/null", "/dev/null", MountAccess::DeviceReadOnly, EntryPurpose::PolicyGrant);
    let gone = entry("/opt", "/opt", MountAccess::ReadOnly, EntryPurpose::PolicyGrant);
    launch.add_entry(&usr, SourceOutcome::Opened(10), DeviceLook::Unreadable).unwrap();
    launch.add_entry(&null, SourceOutcome::Opened(11), DeviceLook::Supported).unwrap();
    launch.add_entry(&gone, SourceOutcome::NotFound, DeviceLook::Supported).unwrap();
    launch.add_proc();
    launch.add_mask(b"/usr/secret", 12).unwrap();
    launch.add_bootstrap(13);
    launch.settle(&None, &Some(b"/work".to_vec()), &None).unwrap();
    let fds = BootstrapFds { filter: 20, control: 21, ready: 22, exec_status: 23 };
    let command = vec![b"sh".to_vec(), b"-c".to_vec(), b"true".to_vec()];
    launch.finish(fds, true, false, &vec![30], &command).unwrap();
    assert_eq!(launch.read_devices, vec![b"/dev/null".to_vec()]);
    assert_eq!(launch.inherited[..4], [10, 11, 12, 13]);
    let argv = texts(&launch.argv);
    assert_eq!(
        argv[..9],
        ["bwrap", "--unshare-user", "--die-with-parent", "--tmpfs", "/", "--uid", "1000", "--gid", "100"]
    );
    assert_eq!(argv[9..15], ["--ro-bind", "/proc/self/fd/10", "/usr", "--dev-bind", "/proc/self/fd/11", "/dev/null"]);
    let at = argv.iter().position(|word| *word == "--remount-ro").unwrap();
    assert_eq!(argv[at..at + 4], ["--remount-ro", "/", "--chdir", "/work"]);
    let first = argv.iter().position(|word| *word == "--filter-fd").unwrap();
    assert_eq!(argv[first - 1], "/.sandlock-bootstrap");
    let args = parse_args(&launch.argv[first..].to_vec()).unwrap();
    assert_eq!((args.filter_fd, args.control_fd, args.ready_fd, args.exec_status_fd), (20, 21, 22, 23));
    assert!(args.foreground);
    assert_eq!(args.keep_fds, vec![30]);
    assert_eq!(args.command, command);
}

#[test]
fn mounts_that_cannot_be_made_are_refused() {
    let mut launch = Launch::start(None);
    let device = entry("/dev/sda", "/dev/sda", MountAccess::DeviceReadOnly, EntryPurpose::PolicyGrant);
    assert_eq!(
        launch.add_entry(&device, SourceOutcome::Opened(3), DeviceLook::Unsupported),
        Err(LaunchFault::DeviceKind)
    );
    assert_eq!(
        launch.add_entry(&device, SourceOutcome::Opened(3), DeviceLook::Unreadable),
        Err(LaunchFault::DeviceUnreadable)
    );
    assert_eq!(launch.add_mask(b"/a\0b", 3), Err(LaunchFault::NulByte));
    assert_eq!(launch.argv.len(), 5);
}

fn plan(denied: &[&str]) -> FilesystemPlan {
    FilesystemPlan {
        entries: vec![
            entry("/usr", "/usr", MountAccess::ReadOnly, EntryPurpose::PolicyGrant),
            entry("/work", "/host/work", MountAccess::ReadWrite, EntryPurpose::PolicyGrant),
        ],
        denied: denied.iter().map(|path| path.as_bytes().to_vec()).collect(),
        proc_mounted: true,
        cow: None,
    }
}

fn places(cwd: &str) -> StartPlaces {
    StartPlaces { cwd: Some(cwd.as_bytes().to_vec()), shown_workdir: None, workdir: Some(b"/work".to_vec()) }
}

#[test]
fn a_plan_mounts_its_entries_and_masks_what_they_show() {
    let opened = Opened {
        sources: vec![SourceOutcome::Opened(10), SourceOutcome::Opened(11)],
        looks: vec![DeviceLook::Unreadable, DeviceLook::Unreadable],
        masks: vec![12, 13],
        bootstrap: 14,
    };
    let launch = Launch::mount_plan(None, &plan(&["/etc/shadow", "/work/secret"]), &opened, &places("/usr")).unwrap();
    assert_eq!(
        texts(&launch.argv),
        [
            "bwrap",
            "--unshare-user",
            "--die-with-parent",
            "--tmpfs",
            "/",
            "--ro-bind",
            "/proc/self/fd/10",
            "/usr",
            "--bind",
            "/proc/self/fd/11",
            "/work",
            "--proc",
            "/proc",
            "--ro-bind",
            "/proc/self/fd/13",
            "/work/secret",
            "--ro-bind",
            "/proc/self/fd/14",
            "/.sandlock-bootstrap",
            "--remount-ro",
            "/",
            "--chdir",
            "/usr",
        ]
    );
    assert_eq!(launch.inherited, vec![10, 11, 13, 14]);
    assert!(launch.read_devices.is_empty());
}

#[test]
fn the_first_mount_that_fails_stops_a_plan() {
    let opened = |second: SourceOutcome| Opened {
        sources: vec![SourceOutcome::NotFound, second],
        looks: vec![DeviceLook::Supported, DeviceLook::Supported],
        masks: vec![12],
        bootstrap: 14,
    };
    let stopped = |second, denied: &str, cwd: &str| {
        Launch::mount_plan(None, &plan(&[denied]), &opened(second), &places(cwd)).err()
    };
    assert_eq!(stopped(SourceOutcome::NotFound, "/work/secret", "/"), Some(LaunchFault::Open));
    assert_eq!(stopped(SourceOutcome::Opened(11), "/work/a\0b", "/"), Some(LaunchFault::NulByte));
    assert_eq!(stopped(SourceOutcome::Opened(11), "/etc/a\0b", "/"), None);
    assert_eq!(stopped(SourceOutcome::Opened(11), "/work/secret", "/a\0b"), Some(LaunchFault::NulByte));
    assert_eq!(stopped(SourceOutcome::Opened(11), "/work/secret", "/usr"), None);
}
