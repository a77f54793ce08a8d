//! Static filesystem-boundary selection and normalized mount planning.

use crate::path;
use crate::path::{components, copy_bytes, join_path, same_path, starts_at_root, Names, NormPath, RelPath};
use crate::path_map;
use crate::path_map::PathMap;
use crate::text;
use crate::text::{append_decimal, append_text, same_text, string_of};
use vstd::prelude::*;
use vstd::string::*;

verus! {

/// Kernel mechanism used to construct the sandbox's static filesystem view.
#[non_exhaustive]
#[derive(Clone, Copy, Debug, PartialEq, Eq, Structural)]
pub enum FilesystemBackend {
    /// Apply path-beneath rules of Landlock.
    Landlock,
    /// Construct an empty mount namespace with Bubblewrap and explicit binds.
    Bubblewrap,
    /// Prefer Landlock when every strict protection is available, otherwise try
    /// Bubblewrap.
    Auto,
}

impl Default for FilesystemBackend {
    fn default() -> (backend: FilesystemBackend)
        ensures
            backend is Landlock,
    {
        FilesystemBackend::Landlock
    }
}

pub const LANDLOCK: &'static str = "landlock";

pub const BUBBLEWRAP: &'static str = "bubblewrap";

pub const AUTO: &'static str = "auto";

pub const INVALID_BACKEND: &'static str = "invalid filesystem backend '";

pub const EXPECTED_BACKENDS: &'static str = "'; expected landlock, bubblewrap, or auto";

/// The name of a backend.
pub open spec fn backend_name(backend: FilesystemBackend) -> Seq<char> {
    match backend {
        FilesystemBackend::Landlock => LANDLOCK@,
        FilesystemBackend::Bubblewrap => BUBBLEWRAP@,
        FilesystemBackend::Auto => AUTO@,
    }
}

impl FilesystemBackend {
    /// The backend that a name stands for, or what to say of a name that stands
    /// for none.
    pub fn from_str(value: &str) -> (backend: Result<FilesystemBackend, String>)
        ensures
            match backend {
                Ok(found) => value@ == backend_name(found),
                Err(message) => {
                    &&& forall|other: FilesystemBackend| value@ != #[trigger] backend_name(other)
                    &&& message@ == INVALID_BACKEND@ + value@ + EXPECTED_BACKENDS@
                },
            },
    {
        if same_text(value, LANDLOCK) {
            Ok(FilesystemBackend::Landlock)
        } else if same_text(value, BUBBLEWRAP) {
            Ok(FilesystemBackend::Bubblewrap)
        } else if same_text(value, AUTO) {
            Ok(FilesystemBackend::Auto)
        } else {
            let mut message: Vec<char> = Vec::new();
            append_text(&mut message, INVALID_BACKEND);
            append_text(&mut message, value);
            append_text(&mut message, EXPECTED_BACKENDS);
            Err(string_of(&message))
        }
    }

    /// The name of the backend.
    pub fn name(&self) -> (name: &'static str)
        ensures
            name@ == backend_name(*self),
    {
        match self {
            FilesystemBackend::Landlock => LANDLOCK,
            FilesystemBackend::Bubblewrap => BUBBLEWRAP,
            FilesystemBackend::Auto => AUTO,
        }
    }
}

/// No two backends share a name, so a name reads back as its backend.
pub proof fn law_backend_names_differ(a: FilesystemBackend, b: FilesystemBackend)
    requires
        backend_name(a) == backend_name(b),
    ensures
        a == b,
{
    reveal_strlit("landlock");
    reveal_strlit("bubblewrap");
    reveal_strlit("auto");
    assert(LANDLOCK@.len() == 8);
    assert(BUBBLEWRAP@.len() == 10);
    assert(AUTO@.len() == 4);
}

/// Runtime-selected filesystem backend.
#[derive(Debug)]
pub enum ResolvedFilesystemBackend {
    Landlock { abi: u32 },
    Bubblewrap { version: String },
}

pub const LANDLOCK_ID: &'static str = "landlock-v";

pub const BUBBLEWRAP_ID: &'static str = "bubblewrap-fs-v2:";

/// The identity of a selected backend.
pub open spec fn backend_id(backend: ResolvedFilesystemBackend) -> Seq<char> {
    match backend {
        ResolvedFilesystemBackend::Landlock { abi } => LANDLOCK_ID@ + text::decimal_text(abi as int),
        ResolvedFilesystemBackend::Bubblewrap { version } => BUBBLEWRAP_ID@ + version@,
    }
}

impl ResolvedFilesystemBackend {
    /// The identity of the selected backend, for caches and diagnostics.
    pub fn implementation_id(&self) -> (id: String)
        ensures
            id@ == backend_id(*self),
    {
        let mut chars: Vec<char> = Vec::new();
        match self {
            ResolvedFilesystemBackend::Landlock { abi } => {
                append_text(&mut chars, LANDLOCK_ID);
                append_decimal(&mut chars, *abi);
                proof {
                    assert(chars@ =~= backend_id(*self));
                }
            },
            ResolvedFilesystemBackend::Bubblewrap { version } => {
                append_text(&mut chars, BUBBLEWRAP_ID);
                append_text(&mut chars, version.as_str());
                proof {
                    assert(chars@ =~= backend_id(*self));
                }
            },
        }
        string_of(&chars)
    }
}

/// Observable backend selection used by cache keys and diagnostics.
#[derive(Debug)]
pub struct FilesystemBackendReport {
    pub requested: FilesystemBackend,
    pub resolved: ResolvedFilesystemBackend,
    pub executable: Option<Vec<u8>>,
    pub implementation_id: String,
}

/// Reports a backend selection.
pub fn report_backend(
    requested: FilesystemBackend,
    resolved: ResolvedFilesystemBackend,
    executable: Option<Vec<u8>>,
) -> (report: FilesystemBackendReport)
    ensures
        report.requested == requested,
        report.resolved == resolved,
        report.executable == executable,
        report.implementation_id@ == backend_id(resolved),
{
    let implementation_id = resolved.implementation_id();
    FilesystemBackendReport { requested, resolved, executable, implementation_id }
}

/// A protection that a sandbox can ask for.
#[derive(Clone, Copy, Debug, PartialEq, Eq, Structural)]
pub enum Protection {
    FsRefer,
    FsTruncate,
    NetTcp,
    FsIoctlDev,
    SignalScope,
    AbstractUnixSocketScope,
}

/// How a sandbox asks for a protection.
#[derive(Clone, Copy, Debug, PartialEq, Eq, Structural)]
pub enum ProtectionState {
    Strict,
    Degradable,
    Disabled,
}

/// What becomes of a protection.
#[derive(Clone, Copy, Debug, PartialEq, Eq, Structural)]
pub enum ProtectionStatus {
    Active,
    Degraded,
    Disabled,
    Unavailable,
}

/// Provider responsible for one active semantic protection.
#[derive(Clone, Copy, Debug, PartialEq, Eq, Structural)]
pub enum ProtectionProvider {
    Landlock,
    MountNamespace,
}

/// Provider-aware protection resolution.
#[derive(Clone, Copy, Debug)]
pub struct ProtectionReport {
    pub protection: Protection,
    pub status: ProtectionStatus,
    pub provider: Option<ProtectionProvider>,
}

/// What is known of a protection: how it is asked for, what Landlock makes of it,
/// and the first version of Landlock that has it.
#[derive(Clone, Copy, Debug, PartialEq, Eq, Structural)]
pub struct ProtectionFacts {
    pub protection: Protection,
    pub state: ProtectionState,
    pub landlock: ProtectionStatus,
    pub min_abi: u32,
}

/// Why no backend could be selected.
#[derive(Clone, Copy, Debug, PartialEq, Eq, Structural)]
pub enum BackendFault {
    LandlockUnavailable,
    BubblewrapUnavailable,
}

/// Whether Landlock can give every protection that is asked for.
pub open spec fn none_unavailable(facts: Seq<ProtectionFacts>) -> bool {
    forall|i: int| 0 <= i < facts.len() ==> !((#[trigger] facts[i]).landlock is Unavailable)
}

/// Whether Landlock is selected.
pub open spec fn selects_landlock(
    requested: FilesystemBackend,
    landlock_abi: Option<u32>,
    facts: Seq<ProtectionFacts>,
) -> bool {
    match requested {
        FilesystemBackend::Landlock => landlock_abi is Some,
        FilesystemBackend::Bubblewrap => false,
        FilesystemBackend::Auto => landlock_abi is Some && none_unavailable(facts),
    }
}

/// Selects a backend. `landlock_abi` is the version that the kernel has, where
/// it has one; `bubblewrap` is the version that is installed, where one is.
pub fn resolve_backend(
    requested: FilesystemBackend,
    landlock_abi: Option<u32>,
    facts: &Vec<ProtectionFacts>,
    bubblewrap: Option<String>,
) -> (result: Result<ResolvedFilesystemBackend, BackendFault>)
    ensures
        if selects_landlock(requested, landlock_abi, facts@) {
            result == Ok::<ResolvedFilesystemBackend, BackendFault>(
                ResolvedFilesystemBackend::Landlock { abi: landlock_abi->0 },
            )
        } else if requested is Landlock {
            result == Err::<ResolvedFilesystemBackend, BackendFault>(BackendFault::LandlockUnavailable)
        } else {
            match bubblewrap {
                Some(version) => result == Ok::<ResolvedFilesystemBackend, BackendFault>(
                    ResolvedFilesystemBackend::Bubblewrap { version },
                ),
                None => result == Err::<ResolvedFilesystemBackend, BackendFault>(
                    BackendFault::BubblewrapUnavailable,
                ),
            }
        },
{
    match requested {
        FilesystemBackend::Landlock => {
            return match landlock_abi {
                Some(abi) => Ok(ResolvedFilesystemBackend::Landlock { abi }),
                None => Err(BackendFault::LandlockUnavailable),
            };
        },
        FilesystemBackend::Bubblewrap => {},
        FilesystemBackend::Auto => {
            match landlock_abi {
                Some(abi) => {
                    let mut all_available = true;
                    let mut i: usize = 0;
                    while i < facts.len()
                        invariant
                            i <= facts@.len(),
                            all_available == (forall|j: int|
                                0 <= j < i ==> !((#[trigger] facts@[j]).landlock is Unavailable)),
                        decreases facts@.len() - i,
                    {
                        if facts[i].landlock == ProtectionStatus::Unavailable {
                            all_available = false;
                        }
                        i = i + 1;
                    }
                    if all_available {
                        return Ok(ResolvedFilesystemBackend::Landlock { abi });
                    }
                },
                None => {},
            }
        },
    }
    match bubblewrap {
        Some(version) => Ok(ResolvedFilesystemBackend::Bubblewrap { version }),
        None => Err(BackendFault::BubblewrapUnavailable),
    }
}

/// What a mount namespace makes of a protection: it supplies those of renaming
/// and truncating files.
pub open spec fn namespace_status(facts: ProtectionFacts) -> ProtectionStatus {
    let supplied = facts.protection is FsRefer || facts.protection is FsTruncate;
    match facts.state {
        ProtectionState::Disabled => ProtectionStatus::Disabled,
        ProtectionState::Strict => if supplied {
            ProtectionStatus::Active
        } else {
            ProtectionStatus::Unavailable
        },
        ProtectionState::Degradable => if supplied {
            ProtectionStatus::Active
        } else {
            ProtectionStatus::Degraded
        },
    }
}

/// What becomes of a protection under a backend.
pub open spec fn report_of(facts: ProtectionFacts, backend: ResolvedFilesystemBackend) -> ProtectionReport {
    let is_landlock = backend is Landlock;
    let status = if is_landlock {
        facts.landlock
    } else {
        namespace_status(facts)
    };
    ProtectionReport {
        protection: facts.protection,
        status,
        provider: if !(status is Active) {
            None
        } else if is_landlock {
            Some(ProtectionProvider::Landlock)
        } else {
            Some(ProtectionProvider::MountNamespace)
        },
    }
}

fn report_one(facts: ProtectionFacts, backend: &ResolvedFilesystemBackend) -> (report: ProtectionReport)
    ensures
        report == report_of(facts, *backend),
{
    match backend {
        ResolvedFilesystemBackend::Landlock { .. } => {
            let status = facts.landlock;
            ProtectionReport {
                protection: facts.protection,
                status,
                provider: if status == ProtectionStatus::Active {
                    Some(ProtectionProvider::Landlock)
                } else {
                    None
                },
            }
        },
        ResolvedFilesystemBackend::Bubblewrap { .. } => {
            let supplied = facts.protection == Protection::FsRefer || facts.protection == Protection::FsTruncate;
            let status = match facts.state {
                ProtectionState::Disabled => ProtectionStatus::Disabled,
                ProtectionState::Strict => {
                    if supplied {
                        ProtectionStatus::Active
                    } else {
                        ProtectionStatus::Unavailable
                    }
                },
                ProtectionState::Degradable => {
                    if supplied {
                        ProtectionStatus::Active
                    } else {
                        ProtectionStatus::Degraded
                    }
                },
            };
            ProtectionReport {
                protection: facts.protection,
                status,
                provider: if status == ProtectionStatus::Active {
                    Some(ProtectionProvider::MountNamespace)
                } else {
                    None
                },
            }
        },
    }
}

/// Reports what becomes of each protection under a backend.
pub fn protection_reports(facts: &Vec<ProtectionFacts>, backend: &ResolvedFilesystemBackend) -> (reports: Vec<
    ProtectionReport,
>)
    ensures
        reports@ == Seq::new(facts@.len(), |i: int| report_of(facts@[i], *backend)),
{
    let mut reports: Vec<ProtectionReport> = Vec::new();
    let mut i: usize = 0;
    while i < facts.len()
        invariant
            i <= facts@.len(),
            reports@.len() == i,
            forall|j: int| 0 <= j < i ==> #[trigger] reports@[j] == report_of(facts@[j], *backend),
        decreases facts@.len() - i,
    {
        reports.push(report_one(facts[i], backend));
        i = i + 1;
    }
    proof {
        assert(reports@ =~= Seq::new(facts@.len(), |i: int| report_of(facts@[i], *backend)));
    }
    reports
}

/// A protection that a backend cannot give.
#[derive(Clone, Copy, Debug, PartialEq, Eq, Structural)]
pub struct MissingProtection {
    pub protection: Protection,
    /// The first version of Landlock that has the protection.
    pub required_abi: u32,
    /// The version of Landlock, or nothing under another backend.
    pub host_abi: u32,
}

/// The version of Landlock that a backend has.
pub open spec fn host_abi(backend: ResolvedFilesystemBackend) -> u32 {
    match backend {
        ResolvedFilesystemBackend::Landlock { abi } => abi,
        ResolvedFilesystemBackend::Bubblewrap { .. } => 0,
    }
}

/// The first protection that a backend cannot give.
pub open spec fn first_missing(facts: Seq<ProtectionFacts>, backend: ResolvedFilesystemBackend, from: int) -> Option<
    ProtectionFacts,
>
    decreases facts.len() - from,
{
    if from < 0 || from >= facts.len() {
        None
    } else if report_of(facts[from], backend).status is Unavailable {
        Some(facts[from])
    } else {
        first_missing(facts, backend, from + 1)
    }
}

/// Checks that a backend gives every protection that is asked for strictly.
pub fn validate_protections(facts: &Vec<ProtectionFacts>, backend: &ResolvedFilesystemBackend) -> (result: Result<
    (),
    MissingProtection,
>)
    ensures
        result == match first_missing(facts@, *backend, 0) {
            Some(missing) => Err::<(), MissingProtection>(
                MissingProtection {
                    protection: missing.protection,
                    required_abi: missing.min_abi,
                    host_abi: host_abi(*backend),
                },
            ),
            None => Ok::<(), MissingProtection>(()),
        },
{
    let mut i: usize = 0;
    while i < facts.len()
        invariant
            i <= facts@.len(),
            first_missing(facts@, *backend, 0) == first_missing(facts@, *backend, i as int),
        decreases facts@.len() - i,
    {
        let report = report_one(facts[i], backend);
        if report.status == ProtectionStatus::Unavailable {
            let abi: u32 = match backend {
                ResolvedFilesystemBackend::Landlock { abi } => *abi,
                ResolvedFilesystemBackend::Bubblewrap { .. } => 0,
            };
            return Err(
                MissingProtection { protection: report.protection, required_abi: facts[i].min_abi, host_abi: abi },
            );
        }
        i = i + 1;
    }
    Ok(())
}

/// A mount namespace never relaxes a protection that is asked for strictly: it
/// gives the protection, or it is refused.
pub proof fn law_strict_protections_are_not_relaxed(facts: Seq<ProtectionFacts>, version: String, i: int)
    requires
        first_missing(facts, ResolvedFilesystemBackend::Bubblewrap { version }, 0) is None,
        0 <= i < facts.len(),
        facts[i].state is Strict,
    ensures
        report_of(facts[i], ResolvedFilesystemBackend::Bubblewrap { version }).status is Active,
{
    lemma_none_missing(facts, ResolvedFilesystemBackend::Bubblewrap { version }, 0, i);
}

proof fn lemma_none_missing(facts: Seq<ProtectionFacts>, backend: ResolvedFilesystemBackend, from: int, i: int)
    requires
        0 <= from <= i < facts.len(),
        first_missing(facts, backend, from) is None,
    ensures
        !(report_of(facts[i], backend).status is Unavailable),
    decreases i - from,
{
    if from < i {
        lemma_none_missing(facts, backend, from + 1, i);
    }
}

/// What a mount allows.
#[derive(Clone, Copy, Debug, PartialEq, Eq, Structural)]
pub enum MountAccess {
    ReadOnly,
    ReadWrite,
    DeviceReadOnly,
    DeviceReadWrite,
}

/// Why a mount is there.
#[derive(Clone, Copy, Debug, PartialEq, Eq, Structural)]
pub enum EntryPurpose {
    PolicyGrant,
    ExplicitMount,
    CowLower,
}

/// One entry of a mount plan.
#[derive(Debug)]
pub struct FilesystemEntry {
    pub guest_path: Vec<u8>,
    pub host_source: Vec<u8>,
    pub access: MountAccess,
    pub purpose: EntryPurpose,
}

/// What an entry of a mount plan says.
#[verifier::ext_equal]
pub struct PlanEntry {
    pub guest_path: Seq<u8>,
    pub host_source: Seq<u8>,
    pub access: MountAccess,
    pub purpose: EntryPurpose,
}

impl View for FilesystemEntry {
    type V = PlanEntry;

    open spec fn view(&self) -> PlanEntry {
        PlanEntry {
            guest_path: self.guest_path@,
            host_source: self.host_source@,
            access: self.access,
            purpose: self.purpose,
        }
    }
}

impl FilesystemEntry {
    /// The same entry again.
    pub fn copy(&self) -> (entry: FilesystemEntry)
        ensures
            entry@ == self@,
    {
        FilesystemEntry {
            guest_path: copy_bytes(self.guest_path.as_slice()),
            host_source: copy_bytes(self.host_source.as_slice()),
            access: self.access,
            purpose: self.purpose,
        }
    }
}

/// What entries say.
pub open spec fn entry_views(entries: Seq<FilesystemEntry>) -> Seq<PlanEntry> {
    Seq::new(entries.len(), |i: int| entries[i]@)
}

/// A copy-on-write view: where it shows, and the directory that it lies over.
#[derive(Debug)]
pub struct CowView {
    pub guest_root: Vec<u8>,
    pub lower_root: Vec<u8>,
}

/// A path that a policy grants. `is_device` tells whether a device stands at its
/// source.
#[derive(Debug)]
pub struct Grant {
    pub guest: Vec<u8>,
    pub is_device: bool,
}

/// A mount that a policy names.
#[derive(Debug)]
pub struct Mount {
    pub guest: Vec<u8>,
    pub host: Vec<u8>,
    pub is_device: bool,
}

/// The filesystem part of a policy.
#[derive(Debug)]
pub struct FilesystemPolicy {
    pub chroot: Option<Vec<u8>>,
    pub readable: Vec<Grant>,
    pub writable: Vec<Grant>,
    pub mounts: Vec<Mount>,
    pub read_only_mounts: Vec<Vec<u8>>,
    pub workdir: Option<Vec<u8>>,
    pub workdir_virtual: Option<Vec<u8>>,
    pub denied: Vec<Vec<u8>>,
}

/// Why a policy has no mount plan.
#[derive(Clone, Copy, Debug, PartialEq, Eq, Structural)]
pub enum PlanFault {
    /// A path inside the sandbox is not absolute.
    NotAbsolute,
    /// A path inside the sandbox holds `..`.
    HoldsParent,
}

/// Whether a way holds `..`.
pub open spec fn holds_parent(written: Seq<u8>) -> bool {
    exists|i: int| 0 <= i < path::parts(written).len() && #[trigger] path::parts(written)[i] is Parent
}

/// Why a path is no path inside a sandbox.
pub open spec fn guest_fault(written: Seq<u8>) -> Option<PlanFault> {
    if !path::is_absolute(written) {
        Some(PlanFault::NotAbsolute)
    } else if holds_parent(written) {
        Some(PlanFault::HoldsParent)
    } else {
        None
    }
}

/// Checks a path inside a sandbox.
pub fn validate_guest_path(written: &[u8]) -> (result: Result<(), PlanFault>)
    ensures
        result == match guest_fault(written@) {
            Some(fault) => Err::<(), PlanFault>(fault),
            None => Ok::<(), PlanFault>(()),
        },
{
    if !starts_at_root(written) {
        return Err(PlanFault::NotAbsolute);
    }
    let way = components(written);
    let ghost all = path::parts(written@);
    let mut i: usize = 0;
    while i < way.len()
        invariant
            i <= way@.len(),
            all == path::parts(written@),
            path::part_views(way@) == all,
            path::is_absolute(written@),
            forall|j: int| 0 <= j < i ==> !(#[trigger] all[j] is Parent),
        decreases way@.len() - i,
    {
        proof {
            assert(all[i as int] == way@[i as int]@);
        }
        match &way[i] {
            path::Component::Parent => {
                return Err(PlanFault::HoldsParent);
            },
            _ => {},
        }
        i = i + 1;
    }
    proof {
        assert(all.len() == way@.len());
    }
    Ok(())
}

/// The names of an absolute path.
pub open spec fn guest_names(written: Seq<u8>) -> Names {
    path::normal(written).names
}

/// Where a path inside a sandbox lies on the host: below the root of the
/// sandbox's image, where it has one.
pub open spec fn source_of(chroot: Option<Seq<u8>>, guest: Seq<u8>) -> Seq<u8> {
    match chroot {
        None => guest,
        Some(root) => {
            let way = path::parts(guest);
            if path::is_absolute(guest) {
                path::joined_path(root, path::way_bytes(way.skip(1)))
            } else {
                path::joined_path(root, guest)
            }
        },
    }
}

/// What an optional path holds.
pub open spec fn optional(bytes: Option<Vec<u8>>) -> Option<Seq<u8>> {
    match bytes {
        Some(held) => Some(held@),
        None => None,
    }
}

/// Tells where a path inside a sandbox lies on the host.
pub fn source_under_chroot(chroot: &Option<Vec<u8>>, guest: &[u8]) -> (source: Vec<u8>)
    ensures
        source@ == source_of(optional(*chroot), guest@),
{
    match chroot {
        None => copy_bytes(guest),
        Some(root) => {
            if starts_at_root(guest) {
                let way = components(guest);
                proof {
                    let all = path::parts(guest@);
                    assert(way@.len() == all.len());
                    assert(all.skip(1) =~= all.subrange(1, all.len() as int));
                }
                let rest = path::way_to_bytes(&way, 1, way.len());
                join_path(root.as_slice(), rest.as_slice())
            } else {
                join_path(root.as_slice(), guest)
            }
        },
    }
}

/// Whether a mount is read-only.
pub open spec fn is_read_only(read_only: Seq<Vec<u8>>, guest: Seq<u8>) -> bool {
    exists|i: int| 0 <= i < read_only.len() && path::parts((#[trigger] read_only[i])@) == path::parts(guest)
}

/// What a mount allows.
pub open spec fn access_of(is_device: bool, read_only: bool) -> MountAccess {
    if is_device {
        if read_only {
            MountAccess::DeviceReadOnly
        } else {
            MountAccess::DeviceReadWrite
        }
    } else if read_only {
        MountAccess::ReadOnly
    } else {
        MountAccess::ReadWrite
    }
}

fn choose_access(is_device: bool, read_only: bool) -> (access: MountAccess)
    ensures
        access == access_of(is_device, read_only),
{
    if is_device {
        if read_only {
            MountAccess::DeviceReadOnly
        } else {
            MountAccess::DeviceReadWrite
        }
    } else if read_only {
        MountAccess::ReadOnly
    } else {
        MountAccess::ReadWrite
    }
}

/// The entries that grants ask for.
pub open spec fn granted(chroot: Option<Seq<u8>>, grants: Seq<Grant>, read_only: bool) -> Seq<PlanEntry> {
    Seq::new(
        grants.len(),
        |i: int|
            PlanEntry {
                guest_path: grants[i].guest@,
                host_source: source_of(chroot, grants[i].guest@),
                access: access_of(grants[i].is_device, read_only),
                purpose: EntryPurpose::PolicyGrant,
            },
    )
}

/// The entries that mounts ask for.
pub open spec fn mounted(mounts: Seq<Mount>, read_only: Seq<Vec<u8>>) -> Seq<PlanEntry> {
    Seq::new(
        mounts.len(),
        |i: int|
            PlanEntry {
                guest_path: mounts[i].guest@,
                host_source: mounts[i].host@,
                access: access_of(mounts[i].is_device, is_read_only(read_only, mounts[i].guest@)),
                purpose: EntryPurpose::ExplicitMount,
            },
    )
}

/// Where the copy-on-write view of a policy shows.
pub open spec fn cow_root(policy: FilesystemPolicy) -> Seq<u8> {
    match policy.workdir_virtual {
        Some(shown) => shown@,
        None => policy.workdir->0@,
    }
}

/// The entry that the copy-on-write view of a policy asks for: its lower is
/// never writable.
pub open spec fn cow_entries(policy: FilesystemPolicy) -> Seq<PlanEntry> {
    match policy.workdir {
        None => Seq::empty(),
        Some(lower) => seq![
            PlanEntry {
                guest_path: cow_root(policy),
                host_source: lower@,
                access: MountAccess::ReadOnly,
                purpose: EntryPurpose::CowLower,
            },
        ],
    }
}

/// The entries that a policy asks for, in order: a later one for a path takes
/// the place of an earlier one.
pub open spec fn requested_entries(policy: FilesystemPolicy) -> Seq<PlanEntry> {
    granted(optional(policy.chroot), policy.readable@, true) + granted(
        optional(policy.chroot),
        policy.writable@,
        false,
    ) + mounted(policy.mounts@, policy.read_only_mounts@) + cow_entries(policy)
}

pub const PROC: &'static str = "proc";

/// The names of the process filesystem.
pub open spec fn proc_names() -> Names {
    seq![PROC.spec_bytes()]
}

/// The entries of a plan by the names of their paths.
pub open spec fn planned(requested: Seq<PlanEntry>) -> Map<Names, PlanEntry>
    decreases requested.len(),
{
    if requested.len() == 0 {
        Map::empty()
    } else {
        let before = planned(requested.drop_last());
        let names = guest_names(requested.last().guest_path);
        if names == proc_names() {
            before
        } else {
            before.insert(names, requested.last())
        }
    }
}

/// Whether the process filesystem is asked for.
pub open spec fn asks_for_proc(requested: Seq<PlanEntry>) -> bool {
    exists|i: int| 0 <= i < requested.len() && guest_names((#[trigger] requested[i]).guest_path) == proc_names()
}

/// The first entry whose path is no path inside a sandbox.
pub open spec fn first_entry_fault(requested: Seq<PlanEntry>, from: int) -> Option<PlanFault>
    decreases requested.len() - from,
{
    if from < 0 || from >= requested.len() {
        None
    } else if guest_fault(requested[from].guest_path) is Some {
        guest_fault(requested[from].guest_path)
    } else {
        first_entry_fault(requested, from + 1)
    }
}

/// The first denied path that is no path inside a sandbox.
pub open spec fn first_denied_fault(denied: Seq<Vec<u8>>, from: int) -> Option<PlanFault>
    decreases denied.len() - from,
{
    if from < 0 || from >= denied.len() {
        None
    } else if guest_fault(denied[from]@) is Some {
        guest_fault(denied[from]@)
    } else {
        first_denied_fault(denied, from + 1)
    }
}

/// The order of a plan: what lies higher comes first, then path order.
pub open spec fn mounts_before(a: Names, b: Names) -> bool {
    a.len() < b.len() || (a.len() == b.len() && path::path_before(a, b))
}

/// A plan lists entries in order, each path once, and exactly those of a map.
pub open spec fn lists_plan(entries: Seq<PlanEntry>, map: Map<Names, PlanEntry>) -> bool {
    &&& forall|i: int, j: int|
        0 <= i < j < entries.len() ==> mounts_before(
            guest_names((#[trigger] entries[i]).guest_path),
            guest_names((#[trigger] entries[j]).guest_path),
        )
    &&& forall|i: int|
        0 <= i < entries.len() ==> map.dom().contains(guest_names((#[trigger] entries[i]).guest_path)) && map[guest_names(
            entries[i].guest_path,
        )] == entries[i]
    &&& forall|names: Names|
        #[trigger] map.dom().contains(names) ==> exists|i: int|
            0 <= i < entries.len() && guest_names((#[trigger] entries[i]).guest_path) == names
}

/// Backend-neutral normalized filesystem view.
#[derive(Debug)]
pub struct FilesystemPlan {
    pub entries: Vec<FilesystemEntry>,
    pub denied: Vec<Vec<u8>>,
    pub proc_mounted: bool,
    pub cow: Option<CowView>,
}

/// Collects the entries that grants ask for.
fn push_grants(entries: &mut Vec<FilesystemEntry>, chroot: &Option<Vec<u8>>, grants: &Vec<Grant>, read_only: bool)
    ensures
        entry_views(final(entries)@) == entry_views(old(entries)@) + granted(optional(*chroot), grants@, read_only),
{
    let ghost start = entry_views(entries@);
    let ghost asked = granted(optional(*chroot), grants@, read_only);
    let mut i: usize = 0;
    proof {
        assert(start + asked.take(0) =~= start);
    }
    while i < grants.len()
        invariant
            i <= grants@.len(),
            asked == granted(optional(*chroot), grants@, read_only),
            entry_views(entries@) == start + asked.take(i as int),
        decreases grants@.len() - i,
    {
        let host_source = source_under_chroot(chroot, grants[i].guest.as_slice());
        let entry = FilesystemEntry {
            guest_path: copy_bytes(grants[i].guest.as_slice()),
            host_source,
            access: choose_access(grants[i].is_device, read_only),
            purpose: EntryPurpose::PolicyGrant,
        };
        let ghost before = entry_views(entries@);
        let ghost added = entry@;
        entries.push(entry);
        proof {
            assert(entry_views(entries@) =~= before.push(added));
            assert(added =~= asked[i as int]);
            assert(asked.take(i as int + 1) =~= asked.take(i as int).push(asked[i as int]));
            assert(start + asked.take(i as int + 1) =~= (start + asked.take(i as int)).push(asked[i as int]));
        }
        i = i + 1;
    }
    proof {
        assert(asked.take(i as int) =~= asked);
    }
}

fn mount_is_read_only(read_only: &Vec<Vec<u8>>, guest: &[u8]) -> (result: bool)
    ensures
        result == is_read_only(read_only@, guest@),
{
    let mut i: usize = 0;
    while i < read_only.len()
        invariant
            i <= read_only@.len(),
            forall|j: int| 0 <= j < i ==> path::parts((#[trigger] read_only@[j])@) != path::parts(guest@),
        decreases read_only@.len() - i,
    {
        if same_path(read_only[i].as_slice(), guest) {
            return true;
        }
        i = i + 1;
    }
    false
}

/// Collects the entries that mounts ask for.
fn push_mounts(entries: &mut Vec<FilesystemEntry>, mounts: &Vec<Mount>, read_only: &Vec<Vec<u8>>)
    ensures
        entry_views(final(entries)@) == entry_views(old(entries)@) + mounted(mounts@, read_only@),
{
    let ghost start = entry_views(entries@);
    let ghost asked = mounted(mounts@, read_only@);
    let mut i: usize = 0;
    proof {
        assert(start + asked.take(0) =~= start);
    }
    while i < mounts.len()
        invariant
            i <= mounts@.len(),
            asked == mounted(mounts@, read_only@),
            entry_views(entries@) == start + asked.take(i as int),
        decreases mounts@.len() - i,
    {
        let entry = FilesystemEntry {
            guest_path: copy_bytes(mounts[i].guest.as_slice()),
            host_source: copy_bytes(mounts[i].host.as_slice()),
            access: choose_access(
                mounts[i].is_device,
                mount_is_read_only(read_only, mounts[i].guest.as_slice()),
            ),
            purpose: EntryPurpose::ExplicitMount,
        };
        let ghost before = entry_views(entries@);
        let ghost added = entry@;
        entries.push(entry);
        proof {
            assert(entry_views(entries@) =~= before.push(added));
            assert(added =~= asked[i as int]);
            assert(asked.take(i as int + 1) =~= asked.take(i as int).push(asked[i as int]));
            assert(start + asked.take(i as int + 1) =~= (start + asked.take(i as int)).push(asked[i as int]));
        }
        i = i + 1;
    }
    proof {
        assert(asked.take(i as int) =~= asked);
    }
}

/// Collects the entries that a policy asks for.
fn collect_requests(policy: &FilesystemPolicy) -> (entries: Vec<FilesystemEntry>)
    ensures
        entry_views(entries@) == requested_entries(*policy),
{
    let mut entries: Vec<FilesystemEntry> = Vec::new();
    proof {
        assert(entry_views(entries@) =~= Seq::<PlanEntry>::empty());
    }
    push_grants(&mut entries, &policy.chroot, &policy.readable, true);
    push_grants(&mut entries, &policy.chroot, &policy.writable, false);
    push_mounts(&mut entries, &policy.mounts, &policy.read_only_mounts);
    let ghost before = entry_views(entries@);
    proof {
        let chroot = optional(policy.chroot);
        assert(before =~= granted(chroot, policy.readable@, true) + granted(chroot, policy.writable@, false) + mounted(
            policy.mounts@,
            policy.read_only_mounts@,
        ));
    }
    match &policy.workdir {
        None => {
            proof {
                assert(before + cow_entries(*policy) =~= before);
            }
        },
        Some(lower) => {
            let guest_path = match &policy.workdir_virtual {
                Some(shown) => copy_bytes(shown.as_slice()),
                None => copy_bytes(lower.as_slice()),
            };
            let entry = FilesystemEntry {
                guest_path,
                host_source: copy_bytes(lower.as_slice()),
                access: MountAccess::ReadOnly,
                purpose: EntryPurpose::CowLower,
            };
            let ghost added = entry@;
            entries.push(entry);
            proof {
                assert(entry_views(entries@) =~= before.push(added));
                assert(added =~= cow_entries(*policy)[0]);
                assert(before + cow_entries(*policy) =~= before.push(added));
            }
        },
    }
    entries
}

fn precedes(a: &RelPath, b: &RelPath) -> (result: bool)
    ensures
        result == mounts_before(a@, b@),
{
    let (left, right) = (a.depth(), b.depth());
    left < right || (left == right && a.precedes(b))
}

proof fn lemma_mount_order(a: Names, b: Names, c: Names)
    requires
        mounts_before(a, b),
        mounts_before(b, c),
    ensures
        mounts_before(a, c),
{
    if a.len() == b.len() && b.len() == c.len() {
        path::lemma_path_transitive(a, b, c);
    }
}

/// Names stand in the order of a plan.
pub open spec fn names_in_mount_order(keys: Seq<Names>) -> bool {
    forall|i: int, j: int| 0 <= i < j < keys.len() ==> mounts_before(#[trigger] keys[i], #[trigger] keys[j])
}

proof fn lemma_insert_in_mount_order(keys: Seq<Names>, at: int, new: Names)
    requires
        names_in_mount_order(keys),
        0 <= at <= keys.len(),
        forall|i: int| 0 <= i < at ==> mounts_before(#[trigger] keys[i], new),
        forall|i: int| at <= i < keys.len() ==> mounts_before(new, #[trigger] keys[i]),
    ensures
        names_in_mount_order(keys.insert(at, new)),
        forall|p: Names| #[trigger] keys.insert(at, new).contains(p) <==> (keys.contains(p) || p == new),
{
    let after = keys.insert(at, new);
    assert forall|i: int, j: int| 0 <= i < j < after.len() implies mounts_before(
        #[trigger] after[i],
        #[trigger] after[j],
    ) by {
        let bi = if i < at { i } else { i - 1 };
        let bj = if j < at { j } else { j - 1 };
        if i == at {
            assert(after[j] == keys[bj]);
        } else if j == at {
            assert(after[i] == keys[bi]);
        } else {
            assert(after[i] == keys[bi] && after[j] == keys[bj]);
        }
    }
    assert forall|p: Names| #[trigger] after.contains(p) <==> (keys.contains(p) || p == new) by {
        if keys.contains(p) {
            let i = choose|i: int| 0 <= i < keys.len() && keys[i] == p;
            if i < at {
                assert(after[i] == p);
            } else {
                assert(after[i + 1] == p);
            }
        }
        if p == new {
            assert(after[at] == p);
        }
        if after.contains(p) {
            let i = choose|i: int| 0 <= i < after.len() && after[i] == p;
            if i < at {
                assert(keys[i] == p);
            } else if i > at {
                assert(keys[i - 1] == p);
            }
        }
    }
}

/// The place of new names among names in the order of a plan.
fn mount_place(keys: &Vec<RelPath>, new: &RelPath) -> (at: usize)
    requires
        names_in_mount_order(path::path_views(keys@)),
        !path::path_views(keys@).contains(new@),
    ensures
        at <= keys@.len(),
        forall|i: int| 0 <= i < at ==> mounts_before(#[trigger] path::path_views(keys@)[i], new@),
        forall|i: int| at <= i < keys@.len() ==> mounts_before(new@, #[trigger] path::path_views(keys@)[i]),
{
    let ghost views = path::path_views(keys@);
    let mut at: usize = keys.len();
    while at > 0 && precedes(new, &keys[at - 1])
        invariant
            at <= keys@.len(),
            views == path::path_views(keys@),
            forall|i: int| at <= i < keys@.len() ==> mounts_before(new@, #[trigger] views[i]),
        decreases at,
    {
        proof {
            assert(views[at - 1] == keys@[at - 1]@);
        }
        at = at - 1;
    }
    proof {
        assert forall|i: int| 0 <= i < at implies mounts_before(#[trigger] views[i], new@) by {
            let last = views[at - 1];
            assert(last == keys@[at - 1]@);
            assert(views.contains(last));
            if last.len() == new@.len() {
                path::lemma_path_total(last, new@);
            }
            if i < at - 1 {
                lemma_mount_order(views[i], last, new@);
            }
        }
    }
    at
}

/// Puts the entries of a map in the order of a plan.
fn in_mount_order(map: &PathMap<FilesystemEntry>) -> (entries: Vec<FilesystemEntry>)
    requires
        map.wf(),
        forall|names: Names| #[trigger] map@.dom().contains(names) ==> guest_names(map@[names].guest_path) == names,
    ensures
        lists_plan(entry_views(entries@), map@),
{
    let ghost all = map.entries();
    let mut entries: Vec<FilesystemEntry> = Vec::new();
    let mut keys: Vec<RelPath> = Vec::new();
    let mut k: usize = 0;
    while k < map.len()
        invariant
            map.wf(),
            all == map.entries(),
            k <= all.len(),
            keys@.len() == k,
            entries@.len() == k,
            names_in_mount_order(path::path_views(keys@)),
            forall|p: Names|
                #[trigger] path::path_views(keys@).contains(p) <==> path_map::has_path(all.take(k as int), p),
            forall|i: int|
                0 <= i < k ==> map@.dom().contains(#[trigger] path::path_views(keys@)[i]) && map@[path::path_views(
                    keys@,
                )[i]] == entries@[i]@,
        decreases all.len() - k,
    {
        let key = map.path_at(k).copy();
        let entry = map.value_at(k).copy();
        let ghost new = key@;
        let ghost value = entry@;
        let ghost before = path::path_views(keys@);
        let ghost old_entries = entries@;
        proof {
            path_map::lemma_entry_at(all, k as int);
            assert(all[k as int] == (new, value));
            if before.contains(new) {
                assert(path_map::has_path(all.take(k as int), new));
                let m = path_map::place_of(all.take(k as int), new);
                assert(all.take(k as int)[m] == all[m]);
                path_map::lemma_place_unique(all, m, k as int);
            }
        }
        let at = mount_place(&keys, &key);
        keys.insert(at, key);
        entries.insert(at, entry);
        proof {
            lemma_insert_in_mount_order(before, at as int, new);
            let after = path::path_views(keys@);
            assert(after =~= before.insert(at as int, new));
            assert forall|p: Names| #[trigger] after.contains(p) <==> path_map::has_path(all.take(k as int + 1), p) by {
                crate::snapshot::compare::lemma_has_path_step(all, k as int, p);
                assert(after.contains(p) <==> (before.contains(p) || p == new));
            }
            assert forall|i: int| 0 <= i < k + 1 implies map@.dom().contains(#[trigger] after[i]) && map@[after[i]]
                == entries@[i]@ by {
                let old_i = if i < at { i } else { i - 1 };
                if i != at {
                    assert(after[i] == before[old_i]);
                    assert(entries@[i] == old_entries[old_i]);
                }
            }
        }
        k = k + 1;
    }
    proof {
        let views = entry_views(entries@);
        let order = path::path_views(keys@);
        assert(all.take(k as int) =~= all);
        assert forall|i: int| 0 <= i < views.len() implies #[trigger] map@.dom().contains(order[i])
            && map@[order[i]] == views[i] && guest_names(views[i].guest_path) == order[i] by {
            assert(views[i] == entries@[i]@);
            assert(map@.dom().contains(order[i]));
        }
        assert forall|i: int, j: int| 0 <= i < j < views.len() implies mounts_before(
            guest_names((#[trigger] views[i]).guest_path),
            guest_names((#[trigger] views[j]).guest_path),
        ) by {
            assert(map@.dom().contains(order[i]));
            assert(map@.dom().contains(order[j]));
            assert(mounts_before(order[i], order[j]));
        }
        assert forall|i: int| 0 <= i < views.len() implies map@.dom().contains(
            guest_names((#[trigger] views[i]).guest_path),
        ) && map@[guest_names(views[i].guest_path)] == views[i] by {
            assert(map@.dom().contains(order[i]));
        }
        assert forall|names: Names| #[trigger] map@.dom().contains(names) implies exists|i: int|
            0 <= i < views.len() && guest_names((#[trigger] views[i]).guest_path) == names by {
            assert(path_map::has_path(all, names));
            assert(order.contains(names));
            let i = choose|i: int| 0 <= i < order.len() && order[i] == names;
            assert(map@.dom().contains(order[i]));
            assert(guest_names(views[i].guest_path) == names);
        }
    }
    entries
}

impl FilesystemPlan {
    /// The mount plan of a policy.
    pub fn from_sandbox(policy: &FilesystemPolicy) -> (result: Result<FilesystemPlan, PlanFault>)
        ensures
            ({
                let requested = requested_entries(*policy);
                if first_entry_fault(requested, 0) is Some {
                    result == Err::<FilesystemPlan, PlanFault>(first_entry_fault(requested, 0)->0)
                } else if first_denied_fault(policy.denied@, 0) is Some {
                    result == Err::<FilesystemPlan, PlanFault>(first_denied_fault(policy.denied@, 0)->0)
                } else {
                    result matches Ok(plan) && {
                        &&& lists_plan(entry_views(plan.entries@), planned(requested))
                        &&& path::byte_views(plan.denied@) == path::byte_views(policy.denied@)
                        &&& plan.proc_mounted == asks_for_proc(requested)
                        &&& plan.cow is Some == policy.workdir is Some
                        &&& plan.cow matches Some(cow) ==> cow.guest_root@ == cow_root(*policy)
                            && cow.lower_root@ == policy.workdir->0@
                    }
                }
            }),
    {
        let requests = collect_requests(policy);
        let ghost requested = requested_entries(*policy);
        let mut map: PathMap<FilesystemEntry> = PathMap::new();
        let mut proc_mounted = false;
        let proc_path = match RelPath::parse(PROC.as_bytes()) {
            Some(parsed) => parsed,
            None => RelPath::root(),
        };
        proof {
            lemma_proc_names();
        }
        let mut i: usize = 0;
        proof {
            assert(requested.take(0) =~= Seq::<PlanEntry>::empty());
        }
        while i < requests.len()
            invariant
                i <= requests@.len(),
                requested == requested_entries(*policy),
                entry_views(requests@) == requested,
                proc_path@ == proc_names(),
                map.wf(),
                map@ == planned(requested.take(i as int)),
                forall|names: Names|
                    #[trigger] map@.dom().contains(names) ==> guest_names(map@[names].guest_path) == names,
                proc_mounted == (exists|j: int|
                    0 <= j < i && guest_names((#[trigger] requested[j]).guest_path) == proc_names()),
                first_entry_fault(requested, 0) == first_entry_fault(requested, i as int),
            decreases requests@.len() - i,
        {
            proof {
                assert(requested.len() == requests@.len());
                assert(requested[i as int] == requests@[i as int]@);
                assert(requested.take(i as int + 1).drop_last() =~= requested.take(i as int));
                assert(requested.take(i as int + 1).last() == requested[i as int]);
            }
            match validate_guest_path(requests[i].guest_path.as_slice()) {
                Ok(_) => {},
                Err(fault) => {
                    return Err(fault);
                },
            }
            let place = NormPath::of(requests[i].guest_path.as_slice());
            if place.names.equals(&proc_path) {
                proc_mounted = true;
                proof {
                    assert(guest_names(requested[i as int].guest_path) == proc_names());
                }
            } else {
                map.insert(place.names, requests[i].copy());
            }
            i = i + 1;
        }
        proof {
            assert(requested.take(i as int) =~= requested);
            assert(requested.len() == requests@.len());
        }
        let entries = in_mount_order(&map);
        let mut denied: Vec<Vec<u8>> = Vec::new();
        let mut k: usize = 0;
        while k < policy.denied.len()
            invariant
                k <= policy.denied@.len(),
                denied@.len() == k,
                first_entry_fault(requested_entries(*policy), 0) is None,
                forall|j: int| 0 <= j < k ==> (#[trigger] denied@[j])@ == policy.denied@[j]@,
                first_denied_fault(policy.denied@, 0) == first_denied_fault(policy.denied@, k as int),
            decreases policy.denied@.len() - k,
        {
            match validate_guest_path(policy.denied[k].as_slice()) {
                Ok(_) => {},
                Err(fault) => {
                    return Err(fault);
                },
            }
            denied.push(copy_bytes(policy.denied[k].as_slice()));
            k = k + 1;
        }
        proof {
            assert(path::byte_views(denied@) =~= path::byte_views(policy.denied@));
        }
        let cow = match &policy.workdir {
            None => None,
            Some(lower) => Some(
                CowView {
                    guest_root: match &policy.workdir_virtual {
                        Some(shown) => copy_bytes(shown.as_slice()),
                        None => copy_bytes(lower.as_slice()),
                    },
                    lower_root: copy_bytes(lower.as_slice()),
                },
            ),
        };
        Ok(FilesystemPlan { entries, denied, proc_mounted, cow })
    }
}

proof fn lemma_proc_names()
    ensures
        path::relative_names(PROC.spec_bytes()) == Some(proc_names()),
{
    reveal_strlit("proc");
    let bytes = PROC.spec_bytes();
    let chars = PROC@;
    assert(chars =~= seq!['p', 'r', 'o', 'c']);
    vstd::utf8::is_ascii_chars_encode_utf8(chars);
    assert(bytes =~= seq![0x70u8, 0x72u8, 0x6fu8, 0x63u8]);
    let names = seq![bytes];
    assert(path::joined(names) == bytes);
    assert(path::valid_names(names)) by {
        assert(path::dot().len() == 1 && path::dot_dot().len() == 2);
        assert forall|i: int| 0 <= i < bytes.len() implies bytes[i] != path::SEPARATOR by {}
    }
    path::law_joined_reads_back(names);
}

/// The lower of a copy-on-write view is mounted read-only, whatever else the
/// policy asks for at its place.
pub proof fn law_cow_lower_is_read_only(policy: FilesystemPolicy)
    requires
        policy.workdir is Some,
        guest_names(cow_root(policy)) != proc_names(),
    ensures
        planned(requested_entries(policy)).dom().contains(guest_names(cow_root(policy))),
        planned(requested_entries(policy))[guest_names(cow_root(policy))] == (PlanEntry {
            guest_path: cow_root(policy),
            host_source: policy.workdir->0@,
            access: MountAccess::ReadOnly,
            purpose: EntryPurpose::CowLower,
        }),
{
    let requested = requested_entries(policy);
    assert(cow_entries(policy).len() == 1);
    assert(requested.last() == cow_entries(policy)[0]);
}

/// A plan mounts a directory before anything below it, so that no mount hides
/// another.
pub proof fn law_plans_mount_outside_in(entries: Seq<PlanEntry>, map: Map<Names, PlanEntry>, i: int, j: int)
    requires
        lists_plan(entries, map),
        0 <= i < entries.len(),
        0 <= j < entries.len(),
        path::lies_under(guest_names(entries[j].guest_path), guest_names(entries[i].guest_path)),
        i != j,
    ensures
        i < j,
{
    if j < i {
        let (inner, outer) = (guest_names(entries[j].guest_path), guest_names(entries[i].guest_path));
        assert(mounts_before(inner, outer));
        assert(inner.len() == outer.len());
        assert(inner.take(outer.len() as int) =~= inner);
        path::lemma_path_irreflexive(inner);
    }
}

/// A policy that asks for nothing mounts nothing.
pub proof fn law_empty_policies_mount_nothing(policy: FilesystemPolicy)
    requires
        policy.readable@.len() == 0,
        policy.writable@.len() == 0,
        policy.mounts@.len() == 0,
        policy.workdir is None,
    ensures
        planned(requested_entries(policy)) == Map::<Names, PlanEntry>::empty(),
        !asks_for_proc(requested_entries(policy)),
{
    assert(requested_entries(policy) =~= Seq::<PlanEntry>::empty());
}

/// Whether a requested entry comes of a grant, with the access that grants of its kind give.
pub open spec fn comes_of_grant(entry: PlanEntry, chroot: Option<Seq<u8>>, grant: Grant, is_writable: bool) -> bool {
    &&& entry.guest_path == grant.guest@
    &&& entry.host_source == source_of(chroot, grant.guest@)
    &&& entry.purpose is PolicyGrant
    &&& match entry.access {
        MountAccess::ReadOnly => !is_writable && !grant.is_device,
        MountAccess::DeviceReadOnly => !is_writable && grant.is_device,
        MountAccess::ReadWrite => is_writable && !grant.is_device,
        MountAccess::DeviceReadWrite => is_writable && grant.is_device,
    }
}

/// Whether a guest path is listed among some paths: it leads through the same parts.
pub open spec fn is_listed(paths: Seq<Vec<u8>>, guest: Seq<u8>) -> bool {
    exists|i: int| 0 <= i < paths.len() && path::parts((#[trigger] paths[i])@) == path::parts(guest)
}

/// Whether a requested entry comes of a mount: its source is that of the mount, and it is
/// read-only exactly where the mount is listed so.
pub open spec fn comes_of_mount(entry: PlanEntry, mount: Mount, read_only: Seq<Vec<u8>>) -> bool {
    &&& entry.guest_path == mount.guest@
    &&& entry.host_source == mount.host@
    &&& entry.purpose is ExplicitMount
    &&& match entry.access {
        MountAccess::ReadOnly => is_listed(read_only, mount.guest@) && !mount.is_device,
        MountAccess::DeviceReadOnly => is_listed(read_only, mount.guest@) && mount.is_device,
        MountAccess::ReadWrite => !is_listed(read_only, mount.guest@) && !mount.is_device,
        MountAccess::DeviceReadWrite => !is_listed(read_only, mount.guest@) && mount.is_device,
    }
}

/// Whether a requested entry is the lower layer of the working directory, which nothing
/// writes.
pub open spec fn is_cow_lower(entry: PlanEntry, policy: FilesystemPolicy) -> bool {
    &&& policy.workdir matches Some(lower) && entry.host_source == lower@
    &&& entry.guest_path == match policy.workdir_virtual {
        Some(told) => told@,
        None => policy.workdir->0@,
    }
    &&& entry.access is ReadOnly
    &&& entry.purpose is CowLower
}

/// What a policy asks for, in order: its readable grants, its writable grants, its mounts,
/// and the lower layer of its working directory; each with the access that the policy
/// gives it.
pub proof fn law_requests_come_of_the_policy(policy: FilesystemPolicy, k: int)
    requires
        0 <= k < requested_entries(policy).len(),
    ensures
        ({
            let entry = requested_entries(policy)[k];
            let readable = policy.readable@.len() as int;
            let writable = readable + policy.writable@.len();
            let mounts = writable + policy.mounts@.len();
            let chroot = optional(policy.chroot);
            &&& k < readable ==> comes_of_grant(entry, chroot, policy.readable@[k], false)
            &&& readable <= k < writable ==> comes_of_grant(entry, chroot, policy.writable@[k - readable], true)
            &&& writable <= k < mounts ==> comes_of_mount(
                entry,
                policy.mounts@[k - writable],
                policy.read_only_mounts@,
            )
            &&& mounts <= k ==> k == mounts && is_cow_lower(entry, policy)
            &&& requested_entries(policy).len() == mounts + if policy.workdir is Some {
                1int
            } else {
                0int
            }
        }),
{
    let readable = policy.readable@.len() as int;
    let writable = readable + policy.writable@.len();
    if writable <= k < writable + policy.mounts@.len() {
        let guest = policy.mounts@[k - writable].guest@;
        assert(is_read_only(policy.read_only_mounts@, guest) <==> is_listed(policy.read_only_mounts@, guest));
    }
}

proof fn lemma_plan_keeps_the_last(requested: Seq<PlanEntry>, k: int)
    requires
        0 <= k < requested.len(),
        guest_names(requested[k].guest_path) != proc_names(),
        forall|j: int|
            k < j < requested.len() ==> guest_names((#[trigger] requested[j]).guest_path) != guest_names(
                requested[k].guest_path,
            ),
    ensures
        planned(requested).dom().contains(guest_names(requested[k].guest_path)),
        planned(requested)[guest_names(requested[k].guest_path)] == requested[k],
    decreases requested.len(),
{
    if k < requested.len() - 1 {
        let rest = requested.drop_last();
        assert(rest[k] == requested[k]);
        assert forall|j: int| k < j < rest.len() implies guest_names((#[trigger] rest[j]).guest_path) != guest_names(
            rest[k].guest_path,
        ) by {
            assert(rest[j] == requested[j]);
        }
        lemma_plan_keeps_the_last(rest, k);
        assert(requested[requested.len() - 1] == requested.last());
    }
}

proof fn lemma_planned_was_requested(requested: Seq<PlanEntry>, names: Names) -> (k: int)
    requires
        planned(requested).dom().contains(names),
    ensures
        0 <= k < requested.len(),
        requested[k] == planned(requested)[names],
        guest_names(requested[k].guest_path) == names,
        names != proc_names(),
        forall|j: int| k < j < requested.len() ==> guest_names((#[trigger] requested[j]).guest_path) != names,
    decreases requested.len(),
{
    let rest = requested.drop_last();
    let last = guest_names(requested.last().guest_path);
    if last == names && names != proc_names() {
        requested.len() - 1
    } else {
        let k = lemma_planned_was_requested(rest, names);
        assert(rest[k] == requested[k]);
        assert forall|j: int| k < j < requested.len() implies guest_names((#[trigger] requested[j]).guest_path) != names by {
            if j < requested.len() - 1 {
                assert(rest[j] == requested[j]);
            }
        }
        k
    }
}

/// Whether the access of an entry lets its path be written.
pub open spec fn lets_write(access: MountAccess) -> bool {
    access is ReadWrite || access is DeviceReadWrite
}

/// A path is writable in a plan only where a writable grant stands, or a mount that is not
/// listed as read-only; every other path of the plan comes of a readable grant, of a mount
/// that is listed as read-only, or of the working directory, and is not writable.
pub proof fn law_only_granted_paths_are_writable(policy: FilesystemPolicy, names: Names)
    requires
        planned(requested_entries(policy)).dom().contains(names),
    ensures
        ({
            let entry = planned(requested_entries(policy))[names];
            let chroot = optional(policy.chroot);
            &&& guest_names(entry.guest_path) == names
            &&& if lets_write(entry.access) {
                ||| exists|i: int|
                    0 <= i < policy.writable@.len() && comes_of_grant(entry, chroot, #[trigger] policy.writable@[i], true)
                ||| exists|i: int|
                    0 <= i < policy.mounts@.len() && comes_of_mount(
                        entry,
                        #[trigger] policy.mounts@[i],
                        policy.read_only_mounts@,
                    ) && !is_listed(policy.read_only_mounts@, policy.mounts@[i].guest@)
            } else {
                ||| exists|i: int|
                    0 <= i < policy.readable@.len() && comes_of_grant(entry, chroot, #[trigger] policy.readable@[i], false)
                ||| exists|i: int|
                    0 <= i < policy.mounts@.len() && comes_of_mount(
                        entry,
                        #[trigger] policy.mounts@[i],
                        policy.read_only_mounts@,
                    ) && is_listed(policy.read_only_mounts@, policy.mounts@[i].guest@)
                ||| is_cow_lower(entry, policy)
            }
        }),
{
    let requested = requested_entries(policy);
    let k = lemma_planned_was_requested(requested, names);
    law_requests_come_of_the_policy(policy, k);
    let readable = policy.readable@.len() as int;
    let writable = readable + policy.writable@.len();
    let entry = planned(requested)[names];
    let chroot = optional(policy.chroot);
    if k < readable {
        assert(comes_of_grant(entry, chroot, policy.readable@[k], false));
    } else if k < writable {
        assert(comes_of_grant(entry, chroot, policy.writable@[k - readable], true));
    } else if k < writable + policy.mounts@.len() {
        assert(comes_of_mount(entry, policy.mounts@[k - writable], policy.read_only_mounts@));
    }
}

/// What a policy asks for last at a path stands in the plan: a readable grant, a writable
/// grant or a mount, unless something that comes behind it is at the same path. The path of
/// the process filesystem is set up apart.
pub proof fn law_later_requests_replace_earlier_ones(policy: FilesystemPolicy, k: int)
    requires
        0 <= k < requested_entries(policy).len(),
        guest_names(requested_entries(policy)[k].guest_path) != proc_names(),
        forall|j: int|
            k < j < requested_entries(policy).len() ==> guest_names((#[trigger] requested_entries(policy)[j]).guest_path)
                != guest_names(requested_entries(policy)[k].guest_path),
    ensures
        ({
            let names = guest_names(requested_entries(policy)[k].guest_path);
            &&& planned(requested_entries(policy)).dom().contains(names)
            &&& planned(requested_entries(policy))[names] == requested_entries(policy)[k]
        }),
{
    lemma_plan_keeps_the_last(requested_entries(policy), k);
}

/// A writable grant whose path nothing later takes is writable in the plan, from its own
/// source; a readable one is there and is not writable.
pub proof fn law_grants_are_planned(policy: FilesystemPolicy, i: int, is_writable: bool)
    requires
        0 <= i < if is_writable {
            policy.writable@.len()
        } else {
            policy.readable@.len()
        },
        ({
            let grant = if is_writable {
                policy.writable@[i]
            } else {
                policy.readable@[i]
            };
            let names = guest_names(grant.guest@);
            &&& names != proc_names()
            &&& forall|j: int|
                0 <= j < policy.writable@.len() && (is_writable ==> i < j) ==> guest_names(
                    (#[trigger] policy.writable@[j]).guest@,
                ) != names
            &&& forall|j: int|
                !is_writable && i < j < policy.readable@.len() ==> guest_names((#[trigger] policy.readable@[j]).guest@)
                    != names
            &&& forall|j: int| 0 <= j < policy.mounts@.len() ==> guest_names((#[trigger] policy.mounts@[j]).guest@) != names
            &&& policy.workdir is Some ==> guest_names(cow_root(policy)) != names
        }),
    ensures
        ({
            let grant = if is_writable {
                policy.writable@[i]
            } else {
                policy.readable@[i]
            };
            let names = guest_names(grant.guest@);
            let plan = planned(requested_entries(policy));
            &&& plan.dom().contains(names)
            &&& comes_of_grant(plan[names], optional(policy.chroot), grant, is_writable)
            &&& lets_write(plan[names].access) == is_writable
        }),
{
    let requested = requested_entries(policy);
    let readable = policy.readable@.len() as int;
    let writable = readable + policy.writable@.len();
    let mounts = writable + policy.mounts@.len();
    let k = if is_writable {
        readable + i
    } else {
        i
    };
    let names = guest_names(requested[k].guest_path);
    law_requests_come_of_the_policy(policy, k);
    assert forall|j: int| k < j < requested.len() implies guest_names((#[trigger] requested[j]).guest_path) != names by {
        law_requests_come_of_the_policy(policy, j);
        if j < readable {
            assert(guest_names(policy.readable@[j].guest@) != names);
        } else if j < writable {
            assert(guest_names(policy.writable@[j - readable].guest@) != names);
        } else if j < mounts {
            assert(guest_names(policy.mounts@[j - writable].guest@) != names);
        }
    }
    lemma_plan_keeps_the_last(requested, k);
}

/// Without a chroot a grant shows the host's own path; with one it shows what lies there
/// below the root.
pub proof fn law_grants_show_their_own_path(guest: Seq<u8>, root: Seq<u8>)
    requires
        path::is_absolute(guest),
    ensures
        source_of(None, guest) == guest,
        source_of(Some(root), guest) == path::joined_path(root, path::way_bytes(path::parts(guest).skip(1))),
{
}

/// Whether a path inside the sandbox is refused: it does not start at the root, or it steps
/// up somewhere.
pub open spec fn is_refused_guest(written: Seq<u8>) -> bool {
    ||| written.len() == 0
    ||| written[0] != 0x2f
    ||| exists|i: int| 0 <= i < path::parts(written).len() && #[trigger] path::parts(written)[i] is Parent
}

proof fn lemma_guest_fault(written: Seq<u8>)
    ensures
        guest_fault(written) is Some <==> is_refused_guest(written),
        guest_fault(written) == Some(PlanFault::NotAbsolute) <==> written.len() == 0 || written[0] != 0x2f,
{
}

proof fn lemma_first_entry_fault(requested: Seq<PlanEntry>, from: int)
    requires
        0 <= from <= requested.len(),
    ensures
        first_entry_fault(requested, from) is None <==> forall|i: int|
            from <= i < requested.len() ==> !is_refused_guest((#[trigger] requested[i]).guest_path),
    decreases requested.len() - from,
{
    if from < requested.len() {
        lemma_guest_fault(requested[from].guest_path);
        lemma_first_entry_fault(requested, from + 1);
        if first_entry_fault(requested, from) is None {
            assert forall|i: int| from <= i < requested.len() implies !is_refused_guest(
                (#[trigger] requested[i]).guest_path,
            ) by {
                if i > from {
                    assert(from + 1 <= i);
                }
            }
        }
    }
}

proof fn lemma_first_denied_fault(denied: Seq<Vec<u8>>, from: int)
    requires
        0 <= from <= denied.len(),
    ensures
        first_denied_fault(denied, from) is None <==> forall|i: int|
            from <= i < denied.len() ==> !is_refused_guest((#[trigger] denied[i])@),
    decreases denied.len() - from,
{
    if from < denied.len() {
        lemma_guest_fault(denied[from]@);
        lemma_first_denied_fault(denied, from + 1);
        if first_denied_fault(denied, from) is None {
            assert forall|i: int| from <= i < denied.len() implies !is_refused_guest((#[trigger] denied[i])@) by {
                if i > from {
                    assert(from + 1 <= i);
                }
            }
        }
    }
}

/// A policy is planned exactly where every path that it names inside the sandbox, granted,
/// mounted or denied, starts at the root and steps up nowhere.
pub proof fn law_plans_name_paths_from_the_root(policy: FilesystemPolicy)
    ensures
        (first_entry_fault(requested_entries(policy), 0) is None && first_denied_fault(policy.denied@, 0) is None) <==> (
        forall|k: int|
            0 <= k < requested_entries(policy).len() ==> !is_refused_guest(
                (#[trigger] requested_entries(policy)[k]).guest_path,
            )) && (forall|i: int| 0 <= i < policy.denied@.len() ==> !is_refused_guest((#[trigger] policy.denied@[i])@)),
{
    lemma_first_entry_fault(requested_entries(policy), 0);
    lemma_first_denied_fault(policy.denied@, 0);
}

/// A backend that is asked for by name is used or nothing is; where the choice is left
/// open, Landlock is used exactly where it is there and lacks no protection that is asked
/// for.
pub proof fn law_named_backends_are_used(landlock_abi: Option<u32>, facts: Seq<ProtectionFacts>)
    ensures
        !selects_landlock(FilesystemBackend::Bubblewrap, landlock_abi, facts),
        selects_landlock(FilesystemBackend::Landlock, landlock_abi, facts) <==> landlock_abi is Some,
        selects_landlock(FilesystemBackend::Auto, landlock_abi, facts) <==> landlock_abi is Some && !exists|i: int|
            0 <= i < facts.len() && (#[trigger] facts[i]).landlock is Unavailable,
{
}

/// What is reported of a protection: under Landlock what Landlock gives; under a mount
/// namespace a protection that is switched off stays off, references and truncation are
/// confined by the mounts, and of the others a strict one is missing and another one
/// weakened. A provider is named exactly where a protection is active.
pub proof fn law_reports_tell_what_is_enforced(facts: ProtectionFacts, abi: u32, version: String)
    ensures
        ({
            let landlock = report_of(facts, ResolvedFilesystemBackend::Landlock { abi });
            let namespace = report_of(facts, ResolvedFilesystemBackend::Bubblewrap { version });
            let by_mounts = facts.protection is FsRefer || facts.protection is FsTruncate;
            &&& landlock.protection == facts.protection && namespace.protection == facts.protection
            &&& landlock.status == facts.landlock
            &&& landlock.provider == if facts.landlock is Active {
                Some(ProtectionProvider::Landlock)
            } else {
                None
            }
            &&& namespace.status is Disabled <==> facts.state is Disabled
            &&& namespace.status is Active <==> !(facts.state is Disabled) && by_mounts
            &&& namespace.status is Unavailable <==> facts.state is Strict && !by_mounts
            &&& namespace.status is Degraded <==> facts.state is Degradable && !by_mounts
            &&& namespace.provider == if namespace.status is Active {
                Some(ProtectionProvider::MountNamespace)
            } else {
                None
            }
        }),
{
}

proof fn lemma_first_missing(facts: Seq<ProtectionFacts>, backend: ResolvedFilesystemBackend, from: int)
    requires
        0 <= from <= facts.len(),
    ensures
        match first_missing(facts, backend, from) {
            None => forall|i: int|
                from <= i < facts.len() ==> !(report_of(#[trigger] facts[i], backend).status is Unavailable),
            Some(found) => exists|i: int|
                from <= i < facts.len() && #[trigger] facts[i] == found && report_of(found, backend).status is Unavailable
                    && forall|j: int|
                    from <= j < i ==> !(report_of(#[trigger] facts[j], backend).status is Unavailable),
        },
    decreases facts.len() - from,
{
    if from < facts.len() {
        lemma_first_missing(facts, backend, from + 1);
        if report_of(facts[from], backend).status is Unavailable {
            assert(facts[from] == first_missing(facts, backend, from)->0);
        } else if first_missing(facts, backend, from) is None {
            assert forall|i: int| from <= i < facts.len() implies !(report_of(#[trigger] facts[i], backend).status
                is Unavailable) by {
                if i > from {
                    assert(from + 1 <= i);
                }
            }
        } else {
            let found = first_missing(facts, backend, from)->0;
            let i = choose|i: int|
                from + 1 <= i < facts.len() && #[trigger] facts[i] == found && report_of(found, backend).status
                    is Unavailable && forall|j: int|
                    from + 1 <= j < i ==> !(report_of(#[trigger] facts[j], backend).status is Unavailable);
            assert forall|j: int| from <= j < i implies !(report_of(#[trigger] facts[j], backend).status is Unavailable) by {
                if j > from {
                    assert(from + 1 <= j);
                }
            }
            assert(facts[i] == found);
        }
    }
}

/// A backend is refused exactly where a protection that is asked for is not to be had from
/// it, and the first such one is named.
pub proof fn law_missing_protections_are_refused(facts: Seq<ProtectionFacts>, backend: ResolvedFilesystemBackend)
    ensures
        match first_missing(facts, backend, 0) {
            None => forall|i: int| 0 <= i < facts.len() ==> !(report_of(#[trigger] facts[i], backend).status is Unavailable),
            Some(found) => exists|i: int|
                0 <= i < facts.len() && #[trigger] facts[i] == found && report_of(found, backend).status is Unavailable
                    && forall|j: int| 0 <= j < i ==> !(report_of(#[trigger] facts[j], backend).status is Unavailable),
        },
{
    lemma_first_missing(facts, backend, 0);
}

} // verus!
