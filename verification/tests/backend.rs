use sandlock_core::filesystem_backend::{
    protection_reports, report_backend, resolve_backend, validate_guest_path, validate_protections, BackendFault,
    EntryPurpose, FilesystemBackend, FilesystemPlan, FilesystemPolicy, Grant, Mount, MountAccess, PlanFault,
    Protection, ProtectionFacts, ProtectionProvider, ProtectionState, ProtectionStatus, ResolvedFilesystemBackend,
};

fn policy() -> FilesystemPolicy {
    FilesystemPolicy {
        chroot: None,
        readable: Vec::new(),
        writable: Vec::new(),
        mounts: Vec::new(),
        read_only_mounts: Vec::new(),
        workdir: None,
        workdir_virtual: None,
        denied: Vec::new(),
    }
}

fn bubblewrap() -> ResolvedFilesystemBackend {
    ResolvedFilesystemBackend::Bubblewrap { version: "test".to_string() }
}

fn facts(state: ProtectionState) -> Vec<ProtectionFacts> {
    [
        Protection::FsRefer,
        Protection::FsTruncate,
        Protection::NetTcp,
        Protection::FsIoctlDev,
        Protection::SignalScope,
        Protection::AbstractUnixSocketScope,
    ]
    .into_iter()
    .map(|protection| ProtectionFacts { protection, state, landlock: ProtectionStatus::Active, min_abi: 4 })
    .collect()
}

#[test]
fn default_backend_preserves_landlock() {
    assert_eq!(FilesystemBackend::default(), FilesystemBackend::Landlock);
    assert!(FilesystemBackend::from_str("unconfined").is_err());
    assert_eq!(FilesystemBackend::from_str("bubblewrap"), Ok(FilesystemBackend::Bubblewrap));
}

#[test]
fn bubblewrap_does_not_silently_relax_strict_protections() {
    let backend = bubblewrap();
    let missing = validate_protections(&facts(ProtectionState::Strict), &backend).unwrap_err();
    assert_eq!(missing.protection, Protection::NetTcp);
    assert_eq!((missing.required_abi, missing.host_abi), (4, 0));
    let relaxed: Vec<ProtectionFacts> = facts(ProtectionState::Strict)
        .into_iter()
        .map(|fact| {
            if matches!(
                fact.protection,
                Protection::NetTcp
                    | Protection::FsIoctlDev
                    | Protection::SignalScope
                    | Protection::AbstractUnixSocketScope
            ) {
                ProtectionFacts { state: ProtectionState::Degradable, ..fact }
            } else {
                fact
            }
        })
        .collect();
    assert!(validate_protections(&relaxed, &backend).is_ok());
}

#[test]
fn empty_policy_has_no_host_mounts() {
    let plan = FilesystemPlan::from_sandbox(&policy()).unwrap();
    assert!(plan.entries.is_empty());
    assert!(!plan.proc_mounted);
}

#[test]
fn cow_lower_is_always_read_only_and_uses_virtual_root() {
    let mut asked = policy();
    asked.mounts.push(Mount {
        guest: b"/workspace".to_vec(),
        host: b"/host/lower".to_vec(),
        is_device: false,
    });
    asked.workdir = Some(b"/host/lower".to_vec());
    asked.workdir_virtual = Some(b"/workspace".to_vec());
    let plan = FilesystemPlan::from_sandbox(&asked).unwrap();
    let entry = plan.entries.iter().find(|entry| entry.guest_path == b"/workspace".to_vec()).unwrap();
    assert_eq!(entry.host_source, b"/host/lower".to_vec());
    assert_eq!(entry.access, MountAccess::ReadOnly);
    assert_eq!(entry.purpose, EntryPurpose::CowLower);
}

#[test]
fn chroot_grants_resolve_sources_without_exposing_root() {
    let mut asked = policy();
    asked.chroot = Some(b"/image".to_vec());
    asked.readable.push(Grant { guest: b"/usr".to_vec(), is_device: false });
    let plan = FilesystemPlan::from_sandbox(&asked).unwrap();
    assert_eq!(plan.entries.len(), 1);
    assert_eq!(plan.entries[0].guest_path, b"/usr".to_vec());
    assert_eq!(plan.entries[0].host_source, b"/image/usr".to_vec());
}

#[test]
fn backend_names_read_back() {
    for backend in [FilesystemBackend::Landlock, FilesystemBackend::Bubblewrap, FilesystemBackend::Auto] {
        assert_eq!(FilesystemBackend::from_str(backend.name()), Ok(backend));
    }
}

#[test]
fn mounts_go_from_the_outside_in() {
    let mut asked = policy();
    for guest in ["/a/b/c", "/a", "/z/y", "/a/b"] {
        asked.readable.push(Grant { guest: guest.as_bytes().to_vec(), is_device: false });
    }
    let plan = FilesystemPlan::from_sandbox(&asked).unwrap();
    let order: Vec<&[u8]> = plan.entries.iter().map(|entry| entry.guest_path.as_slice()).collect();
    let a = order.iter().position(|path| *path == b"/a").unwrap();
    let ab = order.iter().position(|path| *path == b"/a/b").unwrap();
    let abc = order.iter().position(|path| *path == b"/a/b/c").unwrap();
    assert!(a < ab && ab < abc);
}

#[test]
fn guest_paths_are_absolute_and_lead_nowhere_else() {
    assert_eq!(validate_guest_path(b"/usr/lib"), Ok(()));
    assert_eq!(validate_guest_path(b"usr"), Err(PlanFault::NotAbsolute));
    assert_eq!(validate_guest_path(b"/usr/../etc"), Err(PlanFault::HoldsParent));
    let mut asked = policy();
    asked.denied.push(b"relative".to_vec());
    assert_eq!(FilesystemPlan::from_sandbox(&asked).err(), Some(PlanFault::NotAbsolute));
}

#[test]
fn the_process_filesystem_is_mounted_and_not_bound() {
    let mut asked = policy();
    asked.readable.push(Grant { guest: b"/proc".to_vec(), is_device: false });
    let plan = FilesystemPlan::from_sandbox(&asked).unwrap();
    assert!(plan.proc_mounted);
    assert!(plan.entries.is_empty());
}

#[test]
fn backends_are_selected_by_what_is_there() {
    let strict = facts(ProtectionState::Strict);
    let landlock = resolve_backend(FilesystemBackend::Landlock, Some(6), &strict, None).unwrap();
    assert_eq!(landlock.implementation_id(), "landlock-v6");
    assert_eq!(
        resolve_backend(FilesystemBackend::Landlock, None, &strict, Some("bwrap-0.9".to_string())).err(),
        Some(BackendFault::LandlockUnavailable)
    );
    assert_eq!(
        resolve_backend(FilesystemBackend::Bubblewrap, Some(6), &strict, None).err(),
        Some(BackendFault::BubblewrapUnavailable)
    );
    let chosen =
        resolve_backend(FilesystemBackend::Auto, None, &strict, Some("bwrap-0.9".to_string())).unwrap();
    let report = report_backend(FilesystemBackend::Auto, chosen, None);
    assert_eq!(report.implementation_id, "bubblewrap-fs-v2:bwrap-0.9");
}

#[test]
fn landlock_provides_what_is_active() {
    let backend = ResolvedFilesystemBackend::Landlock { abi: 6 };
    for report in protection_reports(&facts(ProtectionState::Strict), &backend) {
        assert_eq!(report.status, ProtectionStatus::Active);
        assert_eq!(report.provider, Some(ProtectionProvider::Landlock));
    }
    let reports = protection_reports(&facts(ProtectionState::Disabled), &bubblewrap());
    assert!(reports.iter().all(|report| report.provider != Some(ProtectionProvider::Landlock)));
}

#[test]
fn unknown_backends_are_named_in_the_message() {
    assert_eq!(
        FilesystemBackend::from_str("Landlock").unwrap_err(),
        "invalid filesystem backend 'Landlock'; expected landlock, bubblewrap, or auto",
    );
}
