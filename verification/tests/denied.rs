use sandlock_core::byte_order::{ByteOrder, Machine};
use sandlock_core::bootstrap::DeviceFault;
use sandlock_core::seccomp::denied::{DeniedSet, FileId, PolicyFnState};
use sandlock_core::seccomp::network::{IpAddress, LivePolicy, NetworkPolicy, NetworkState, PortAllow, Protocol};
use sandlock_core::seccomp::read_devices::{
    find_device, is_denied, is_looked_at, open, open_device, probed_path, refuse_device, take_device, DeviceAnswer,
    DeviceDo, DeviceSeen, OpenArguments, ReadDevice,
};
use sandlock_core::seccomp::state::{
    ChrootState, CowState, PerProcessState, ProcfsState, ResourceState, TimeRandomState,
};
use sandlock_core::sys::{EACCES, EIO, ENOTDIR, O_RDWR};
use std::sync::Arc;

fn file(inode: u8) -> FileId {
    FileId { dev: 1, handle_type: 129, handle: vec![inode, 0, 0, 0] }
}

#[test]
fn denied_files_stay_denied_under_every_name() {
    let mut denied = DeniedSet::default();
    assert!(denied.is_empty());
    denied.deny("/etc/shadow", &Some(file(7)));
    assert!(denied.is_path_denied("/etc/shadow"));
    assert!(!denied.is_path_denied("/etc/shadowed"));
    assert!(denied.is_id_denied(&file(7)));
    assert!(!denied.is_id_denied(&file(8)));
    assert!(!denied.is_empty());
    assert_eq!(denied.denied_paths(), vec!["/etc/shadow"]);
}

#[test]
fn allowing_undoes_denying() {
    let mut denied = DeniedSet::default();
    denied.deny("/a", &Some(file(1)));
    denied.deny("/b", &None);
    denied.allow("/a", &Some(file(1)));
    assert!(!denied.is_path_denied("/a"));
    assert!(!denied.is_id_denied(&file(1)));
    assert!(denied.is_path_denied("/b"));
    denied.allow("/b", &None);
    assert!(denied.is_empty());
}

#[test]
fn live_policies_decide_what_is_denied() {
    let mut policy = PolicyFnState::new();
    assert!(!policy.has_denied_paths());
    policy.denied.deny("/x", &None);
    assert!(policy.has_denied_paths());
    assert!(policy.is_path_denied("/x"));
    assert!(!policy.is_id_denied(&file(1)));
    assert!(is_denied(&policy, "/x", "/y", &None));
    assert!(is_denied(&policy, "/y", "/x", &None));
    assert!(!is_denied(&policy, "/y", "/y", &None));
    policy.denied.deny("/z", &Some(file(3)));
    assert!(is_denied(&policy, "/y", "/y", &Some(file(3))));
}

#[test]
fn overrides_of_a_process_come_before_the_live_policy() {
    let mut state = NetworkState::new();
    let plain = state.effective_network_policy(9, Protocol::Tcp, &None);
    assert!(Arc::ptr_eq(&plain, &state.tcp_policy));
    assert!(Arc::ptr_eq(&state.effective_network_policy(9, Protocol::Udp, &None), &state.udp_policy));
    assert!(Arc::ptr_eq(&state.effective_network_policy(9, Protocol::Icmp, &None), &state.icmp_policy));
    state.pid_ip_overrides.insert(9, vec![IpAddress::V4(0x7f000001)]);
    let live = Some(LivePolicy { allowed_ips: vec![IpAddress::V6(1)] });
    match &*state.effective_network_policy(9, Protocol::Udp, &live) {
        NetworkPolicy::AllowList { per_ip, cidrs, any_ip_ports } => {
            assert_eq!(per_ip.len(), 1);
            assert_eq!(per_ip[0].ip, IpAddress::V4(0x7f000001));
            assert!(matches!(per_ip[0].ports, PortAllow::Any));
            assert!(cidrs.is_empty() && any_ip_ports.is_empty());
        }
        other => panic!("{other:?}"),
    }
    match &*state.effective_network_policy(10, Protocol::Udp, &live) {
        NetworkPolicy::AllowList { per_ip, .. } => assert_eq!(per_ip[0].ip, IpAddress::V6(1)),
        other => panic!("{other:?}"),
    }
}

#[test]
fn devices_are_found_by_what_they_are() {
    let devices = vec![ReadDevice { device: 6, inode: 3 }, ReadDevice { device: 6, inode: 5 }];
    assert_eq!(find_device(&devices, 6, 5), Some(1));
    assert_eq!(find_device(&devices, 5, 6), None);
    assert_eq!(take_device(Ok(()), 6, 3), Ok(devices[0]));
    assert_eq!(take_device(Err(DeviceFault::Unsupported), 6, 3), Err(DeviceFault::Unsupported));
    assert!(is_looked_at(&devices, true, 0, 0));
    assert!(!is_looked_at(&vec![], true, 0, 0));
    assert!(!is_looked_at(&devices, false, 0, 0));
    assert_eq!(probed_path("/work", "/dev/null"), "/dev/null");
    assert_eq!(probed_path("/dev", "null"), "/dev/null");
    assert_eq!(probed_path("/", "null"), "/null");
}

#[test]
fn opens_of_devices_are_asked_step_by_step() {
    let machine = Machine { directory: 0o200000, nofollow: 0o400000, order: ByteOrder::Little };
    let devices = vec![ReadDevice { device: 6, inode: 3 }];
    let mut policy = PolicyFnState::new();
    let mut seen = DeviceSeen {
        arguments: None,
        written: None,
        base: None,
        probe: None,
        found: None,
        id: None,
        copied: None,
    };
    let arguments = OpenArguments { path_address: 0x100, dirfd: 5, flags: 0o400000 | 0o2000000, resolve: 0 };
    let next = |seen: &DeviceSeen, policy: &PolicyFnState| open(&devices, true, seen, policy, machine);
    assert!(matches!(open(&vec![], true, &seen, &policy, machine), DeviceDo::Decline));
    assert!(matches!(open(&devices, false, &seen, &policy, machine), DeviceDo::Decline));
    assert!(matches!(next(&seen, &policy), DeviceDo::ReadArguments));
    seen.arguments = Some(Some(OpenArguments { resolve: 8, ..arguments }));
    assert!(matches!(next(&seen, &policy), DeviceDo::Decline));
    seen.arguments = Some(Some(arguments));
    assert!(matches!(next(&seen, &policy), DeviceDo::ReadPath { address: 0x100 }));
    seen.written = Some(Some("null".to_string()));
    assert!(matches!(next(&seen, &policy), DeviceDo::ReadDescriptor { fd: 5 }));
    seen.arguments = Some(Some(OpenArguments { dirfd: -100, ..arguments }));
    assert!(matches!(next(&seen, &policy), DeviceDo::ReadCwd));
    seen.base = Some(Some("/dev".to_string()));
    assert!(matches!(
        next(&seen, &policy),
        DeviceDo::Probe { path, flags } if path == "/dev/null" && flags == 0o10000000 | 0o2000000 | 0o400000
    ));
    seen.probe = Some(Some(ReadDevice { device: 6, inode: 4 }));
    assert!(matches!(next(&seen, &policy), DeviceDo::Decline));
    seen.probe = Some(Some(devices[0]));
    assert!(matches!(next(&seen, &policy), DeviceDo::ReadFound));
    seen.found = Some(Some("/dev/null".to_string()));
    assert!(matches!(next(&seen, &policy), DeviceDo::Identify));
    seen.id = Some(None);
    assert!(matches!(next(&seen, &policy), DeviceDo::Copy { device: 0 }));
    seen.copied = Some(Ok(()));
    assert!(matches!(
        next(&seen, &policy),
        DeviceDo::Answer(DeviceAnswer::Inject { newfd_flags: 0o2000000 })
    ));
    policy.denied.deny("/dev/null", &None);
    assert!(matches!(next(&seen, &policy), DeviceDo::Answer(DeviceAnswer::Errno(EACCES))));
}

#[test]
fn devices_are_only_read() {
    assert_eq!(refuse_device(true, 0, 0o200000), Some(EACCES));
    assert_eq!(refuse_device(false, O_RDWR, 0o200000), Some(EACCES));
    assert_eq!(refuse_device(false, 0o200000, 0o200000), Some(ENOTDIR));
    assert_eq!(refuse_device(false, 0, 0o200000), None);
    assert_eq!(open_device(0, Ok(())), DeviceAnswer::Inject { newfd_flags: 0 });
    assert_eq!(open_device(0o2000000, Ok(())), DeviceAnswer::Inject { newfd_flags: 0o2000000 });
    assert_eq!(open_device(0, Err(Some(24))), DeviceAnswer::Errno(24));
    assert_eq!(open_device(0, Err(None)), DeviceAnswer::Errno(EIO));
}

#[test]
fn fresh_states_hold_nothing() {
    let resources = ResourceState::new(1 << 20, 8);
    assert_eq!((resources.proc_count, resources.mem_used), (0, 0));
    assert_eq!((resources.max_memory_bytes, resources.max_processes), (1 << 20, 8));
    assert!(!resources.hold_forks && resources.held_notif_ids.is_empty() && resources.process_slots.is_empty());
    assert_eq!(ProcfsState::new().vdso_patched_addr, 0);
    assert_eq!(ChrootState::new(), ChrootState::new());
    assert!(CowState::new().branch.is_none());
    let process = PerProcessState::default();
    assert!(process.virtual_cwd.is_none() && process.brk_base.is_none() && process.mem_charged == 0);
    let times = TimeRandomState::new(Some(-3), None);
    assert_eq!(times.time_offset, Some(-3));
    assert!(times.random_state.is_none());
}
