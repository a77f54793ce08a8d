use sandlock_core::bootstrap::{
    check_capability_drop, check_device, close_fds_above, command_is_plain, early_status_fd, listener_frame,
    parse_args, read_filter, report_exec_failure, supported, write_filter, ArgFault, DeviceFault, FilterFault,
    SockFilter,
};
use sandlock_core::sys::{S_IFCHR, S_IFDIR};

fn words(list: &[&str]) -> Vec<Vec<u8>> {
    list.iter().map(|word| word.as_bytes().to_vec()).collect()
}

const FDS: [&str; 8] =
    ["--filter-fd", "4", "--control-fd", "5", "--ready-fd", "6", "--exec-status-fd", "7"];

fn with_fds(rest: &[&str]) -> Vec<Vec<u8>> {
    let mut all = FDS.to_vec();
    all.extend_from_slice(rest);
    words(&all)
}

#[test]
fn bootstrap_arguments_are_read() {
    let args = parse_args(&with_fds(&["--foreground", "1", "--keep-fd", "9", "--", "sh", "-c", "--filter-fd"])).unwrap();
    assert_eq!((args.filter_fd, args.control_fd, args.ready_fd, args.exec_status_fd), (4, 5, 6, 7));
    assert!(args.foreground);
    assert_eq!(args.keep_fds, vec![9]);
    assert_eq!(args.command, words(&["sh", "-c", "--filter-fd"]));
    let kept = args.kept_fds();
    for fd in [4, 5, 6, 7, 9] {
        assert_eq!(kept.contains(&fd), fd == 7 || fd == 9, "{fd}");
    }
}

#[test]
fn bootstrap_argument_faults_are_told_apart() {
    let fault = |list: &[&str]| parse_args(&words(list)).err();
    assert_eq!(fault(&["--filter-fd"]), Some(ArgFault::MissingValue));
    assert_eq!(fault(&["--other", "1"]), Some(ArgFault::UnknownOption));
    assert_eq!(fault(&["--filter-fd", "x"]), Some(ArgFault::NotNumber));
    assert_eq!(fault(&["--", "sh"]), Some(ArgFault::MissingFilterFd));
    assert_eq!(fault(&["--filter-fd", "4", "--", "sh"]), Some(ArgFault::MissingControlFd));
    assert_eq!(fault(&["--filter-fd", "4", "--control-fd", "5", "--", "sh"]), Some(ArgFault::MissingReadyFd));
    assert_eq!(
        fault(&["--filter-fd", "4", "--control-fd", "5", "--ready-fd", "6", "--", "sh"]),
        Some(ArgFault::MissingExecStatusFd)
    );
    assert_eq!(parse_args(&with_fds(&["--"])).err(), Some(ArgFault::EmptyCommand));
    let mut args = with_fds(&[]);
    args.push(b"--keep-fd".to_vec());
    args.push(vec![0xff]);
    assert_eq!(parse_args(&args).err(), Some(ArgFault::NotText));
}

#[test]
fn the_status_descriptor_is_known_before_the_rest_is_read() {
    assert_eq!(early_status_fd(&words(&["--bad", "--exec-status-fd", "12"])), Some(12));
    assert_eq!(early_status_fd(&words(&["--bad"])), None);
}

#[test]
fn commands_hold_no_nul_bytes() {
    assert!(command_is_plain(&words(&["sh", "-c"])));
    assert!(!command_is_plain(&vec![b"sh".to_vec(), b"a\0b".to_vec()]));
}

#[test]
fn filters_read_back() {
    let filter = vec![
        SockFilter { code: 0x20, jt: 0, jf: 0, k: 4 },
        SockFilter { code: 0x15, jt: 1, jf: 2, k: 0xc000003e },
    ];
    let bytes = write_filter(&filter);
    assert_eq!(bytes[..8], *b"SLBP0001");
    assert_eq!(bytes[8..12], [2, 0, 0, 0]);
    assert_eq!(bytes[12..20], [0x20, 0, 0, 0, 4, 0, 0, 0]);
    assert_eq!(bytes.len(), 28);
    assert_eq!(read_filter(&bytes), Ok(filter));
}

#[test]
fn filter_faults_are_told_apart() {
    assert_eq!(read_filter(b"SLBP").err(), Some(FilterFault::Short));
    assert_eq!(read_filter(b"SLBP0002\x01\0\0\0\0\0\0\0\0\0\0\0").err(), Some(FilterFault::Magic));
    assert_eq!(read_filter(b"SLBP0001\0\0\0\0").err(), Some(FilterFault::Count));
    assert_eq!(read_filter(b"SLBP0001\x01\x10\0\0").err(), Some(FilterFault::Count));
    assert_eq!(read_filter(b"SLBP0001\x01\0\0\0\0\0\0").err(), Some(FilterFault::Short));
}

#[test]
fn frames_are_written_byte_by_byte() {
    assert_eq!(listener_frame(0x0102), b"SLNF\x02\x01\0\0".to_vec());
    assert_eq!(report_exec_failure(b"execve", Some(2)), b"SLXF\x02\0\0\0\x06\0execve".to_vec());
    assert_eq!(report_exec_failure(b"", None), b"SLXF\0\0\0\0\0\0".to_vec());
    assert_eq!(report_exec_failure(&[b'x'; 600], Some(1)).len(), 10 + 512);
}

#[test]
fn all_but_the_kept_descriptors_are_closed() {
    assert_eq!(close_fds_above(2, &vec![7, 3, 5, 3, -1]), vec![(4, 4), (6, 6), (8, u32::MAX)]);
    assert_eq!(close_fds_above(2, &vec![]), vec![(3, u32::MAX)]);
    assert_eq!(close_fds_above(2, &vec![i32::MAX]), vec![(3, 0x7ffffffe), (0x80000000, u32::MAX)]);
}

#[test]
fn only_stateless_byte_streams_are_read() {
    assert!(supported(S_IFCHR | 0o666, 1, 3));
    assert!(supported(S_IFCHR | 0o666, 1, 9));
    assert!(!supported(S_IFCHR | 0o666, 1, 1));
    assert!(!supported(S_IFCHR | 0o666, 5, 3));
    assert!(!supported(S_IFDIR | 0o666, 1, 3));
    assert_eq!(check_device(true, 0, 5), Ok(()));
    assert_eq!(check_device(false, 0, 5), Err(DeviceFault::Unsupported));
    assert_eq!(check_device(true, 2, 5), Err(DeviceFault::NotReadOnly));
    assert_eq!(check_device(true, 0, 1), Err(DeviceFault::NotReadOnly));
    assert_eq!(check_device(true, -1, 5), Err(DeviceFault::NotReadOnly));
}

#[test]
fn capability_drops_that_the_kernel_does_not_know_are_no_failure() {
    assert_eq!(check_capability_drop(None), Ok(()));
    assert_eq!(check_capability_drop(Some(1)), Err(1));
}
