//! Trusted typed mutation of immutable snapshots.

use crate::error::{LimitFault, PathFault, SnapshotError, Step, Told};
use crate::path;
use crate::path::{copy_bytes, Names, RelPath};
use crate::path_map::PathMap;
use crate::snapshot::compare::PathProbe;
use crate::snapshot::inventory::permission_mode;
use crate::snapshot::PERMISSION_BITS;
use vstd::prelude::*;

verus! {

/// The most mutations of one batch, unless told otherwise.
pub const DEFAULT_MUTATION_LIMIT: usize = 256;

/// The most payload bytes of one batch, unless told otherwise.
pub const DEFAULT_PAYLOAD_BYTE_LIMIT: u64 = 268_435_456;

/// The mode of a new file.
pub const DEFAULT_NEW_FILE_MODE: u32 = 0o644;

/// The mode of a new directory.
pub const DEFAULT_NEW_DIRECTORY_MODE: u32 = 0o755;

/// One trusted mutation applied to an immutable snapshot when deriving a new snapshot.
#[derive(Debug)]
pub enum SnapshotMutation {
    /// Create or replace one regular file from a trusted no-follow source file.
    PutFile { path: Vec<u8>, source: Vec<u8>, mode: Option<u32> },
    /// Remove one existing regular file.
    RemoveFile { path: Vec<u8> },
    /// Create one directory whose parent already exists in the derived view.
    MakeDirectory { path: Vec<u8>, mode: Option<u32> },
    /// Remove one empty directory.
    RemoveDirectory { path: Vec<u8> },
}

impl SnapshotMutation {
    /// The path that is mutated.
    pub open spec fn target(&self) -> Seq<u8> {
        match self {
            SnapshotMutation::PutFile { path, .. } => path@,
            SnapshotMutation::RemoveFile { path } => path@,
            SnapshotMutation::MakeDirectory { path, .. } => path@,
            SnapshotMutation::RemoveDirectory { path } => path@,
        }
    }

    /// The path that is mutated.
    pub fn path(&self) -> (target: &[u8])
        ensures
            target@ == self.target(),
    {
        match self {
            SnapshotMutation::PutFile { path, .. } => path.as_slice(),
            SnapshotMutation::RemoveFile { path } => path.as_slice(),
            SnapshotMutation::MakeDirectory { path, .. } => path.as_slice(),
            SnapshotMutation::RemoveDirectory { path } => path.as_slice(),
        }
    }
}

/// Hard limits checked before a snapshot mutation copies any payload.
#[derive(Clone, Copy, Debug, PartialEq, Eq, Structural)]
pub struct SnapshotMutationLimits {
    pub max_mutations: usize,
    pub max_payload_bytes: u64,
}

impl Default for SnapshotMutationLimits {
    fn default() -> (limits: Self)
        ensures
            limits.max_mutations == DEFAULT_MUTATION_LIMIT,
            limits.max_payload_bytes == DEFAULT_PAYLOAD_BYTE_LIMIT,
    {
        SnapshotMutationLimits {
            max_mutations: DEFAULT_MUTATION_LIMIT,
            max_payload_bytes: DEFAULT_PAYLOAD_BYTE_LIMIT,
        }
    }
}

/// What looking at the source of a payload gave; a mutation without a payload
/// has none to look at.
#[derive(Clone, Copy, Debug, PartialEq, Eq, Structural)]
pub enum Payload {
    Unneeded,
    RegularFile { len: u64 },
    OtherKind,
    Failed,
}

/// A mutation whose path is in normal form and whose mode is settled.
pub enum PreparedMutation {
    PutFile { path: RelPath, source: Vec<u8>, mode: Option<u32> },
    RemoveFile { path: RelPath },
    MakeDirectory { path: RelPath, mode: u32 },
    RemoveDirectory { path: RelPath },
}

/// What a prepared mutation does.
pub enum Prepared {
    PutFile { path: Names, source: Seq<u8>, mode: Option<u32> },
    RemoveFile { path: Names },
    MakeDirectory { path: Names, mode: u32 },
    RemoveDirectory { path: Names },
}

impl View for PreparedMutation {
    type V = Prepared;

    open spec fn view(&self) -> Prepared {
        match self {
            PreparedMutation::PutFile { path, source, mode } => Prepared::PutFile {
                path: path@,
                source: source@,
                mode: *mode,
            },
            PreparedMutation::RemoveFile { path } => Prepared::RemoveFile { path: path@ },
            PreparedMutation::MakeDirectory { path, mode } => Prepared::MakeDirectory {
                path: path@,
                mode: *mode,
            },
            PreparedMutation::RemoveDirectory { path } => Prepared::RemoveDirectory { path: path@ },
        }
    }
}

/// Checks that a mode has permission bits only.
pub fn validate_mode(mode: Option<u32>) -> (result: Result<(), SnapshotError>)
    ensures
        if mode matches Some(bits) && bits > PERMISSION_BITS {
            result == Err::<(), SnapshotError>(SnapshotError::Operation(Step::Mode))
        } else {
            result is Ok
        },
{
    match mode {
        Some(bits) => {
            if bits > PERMISSION_BITS {
                Err(SnapshotError::Operation(Step::Mode))
            } else {
                Ok(())
            }
        },
        None => Ok(()),
    }
}

/// The mode that a mutation asks for, where it may ask for one.
pub open spec fn asked_mode(mutation: SnapshotMutation) -> Option<u32> {
    match mutation {
        SnapshotMutation::PutFile { mode, .. } => mode,
        SnapshotMutation::MakeDirectory { mode, .. } => mode,
        _ => None,
    }
}

/// The bytes of the payloads of the first mutations.
pub open spec fn payload_total(mutations: Seq<SnapshotMutation>, payloads: Seq<Payload>, count: nat) -> int
    decreases count,
{
    if count == 0 {
        0
    } else {
        payload_total(mutations, payloads, (count - 1) as nat) + match (
            mutations[count - 1],
            payloads[count - 1],
        ) {
            (SnapshotMutation::PutFile { .. }, Payload::RegularFile { len }) => len as int,
            _ => 0,
        }
    }
}

/// Why a batch is refused at one of its mutations.
pub open spec fn mutation_fault_at(
    mutations: Seq<SnapshotMutation>,
    payloads: Seq<Payload>,
    i: int,
    max_payload_bytes: u64,
) -> Option<Told> {
    let names = path::relative_names(mutations[i].target());
    if names is None {
        Some(Told::Other(SnapshotError::InvalidPath(PathFault::NotRelative)))
    } else if names->0.len() == 0 {
        Some(Told::Other(SnapshotError::InvalidPath(PathFault::Root)))
    } else if exists|j: int|
        0 <= j < i && path::relative_names((#[trigger] mutations[j]).target()) == names {
        Some(Told::Other(SnapshotError::InvalidPath(PathFault::Duplicate)))
    } else if asked_mode(mutations[i]) matches Some(mode) && mode > PERMISSION_BITS {
        Some(Told::Other(SnapshotError::Operation(Step::Mode)))
    } else if mutations[i] is PutFile {
        match payloads[i] {
            Payload::RegularFile { .. } => if payload_total(mutations, payloads, (i + 1) as nat)
                > max_payload_bytes {
                Some(
                    Told::Other(
                        SnapshotError::LimitExceeded(LimitFault::PayloadBytes { max_bytes: max_payload_bytes }),
                    ),
                )
            } else {
                None
            },
            Payload::OtherKind => Some(Told::UnsupportedFileType { path: mutations[i]->source@ }),
            _ => Some(Told::Other(SnapshotError::Operation(Step::InspectEntry))),
        }
    } else {
        None
    }
}

/// Why a batch is refused at the first of its mutations that is refused.
pub open spec fn mutation_fault(
    mutations: Seq<SnapshotMutation>,
    payloads: Seq<Payload>,
    count: nat,
    max_payload_bytes: u64,
) -> Option<Told>
    decreases count,
{
    if count == 0 {
        None
    } else {
        match mutation_fault(mutations, payloads, (count - 1) as nat, max_payload_bytes) {
            Some(error) => Some(error),
            None => mutation_fault_at(mutations, payloads, count - 1, max_payload_bytes),
        }
    }
}

/// The prepared form of an accepted mutation.
pub open spec fn prepared_form(mutation: SnapshotMutation) -> Prepared {
    let names = path::relative_names(mutation.target())->0;
    match mutation {
        SnapshotMutation::PutFile { source, mode, .. } => Prepared::PutFile {
            path: names,
            source: source@,
            mode,
        },
        SnapshotMutation::RemoveFile { .. } => Prepared::RemoveFile { path: names },
        SnapshotMutation::MakeDirectory { mode, .. } => Prepared::MakeDirectory {
            path: names,
            mode: match mode {
                Some(bits) => bits,
                None => DEFAULT_NEW_DIRECTORY_MODE,
            },
        },
        SnapshotMutation::RemoveDirectory { .. } => Prepared::RemoveDirectory { path: names },
    }
}

proof fn lemma_mutation_fault_stays(
    mutations: Seq<SnapshotMutation>,
    payloads: Seq<Payload>,
    few: nat,
    many: nat,
    max_payload_bytes: u64,
)
    requires
        few <= many,
        mutation_fault(mutations, payloads, few, max_payload_bytes) is Some,
    ensures
        mutation_fault(mutations, payloads, many, max_payload_bytes) == mutation_fault(
            mutations,
            payloads,
            few,
            max_payload_bytes,
        ),
    decreases many,
{
    if few < many {
        lemma_mutation_fault_stays(mutations, payloads, few, (many - 1) as nat, max_payload_bytes);
    }
}

/// What preparing a batch of mutations gives.
pub open spec fn is_batch(
    mutations: Seq<SnapshotMutation>,
    payloads: Seq<Payload>,
    limits: SnapshotMutationLimits,
    result: Result<Vec<PreparedMutation>, SnapshotError>,
) -> bool {
    if mutations.len() > limits.max_mutations {
        result == Err::<Vec<PreparedMutation>, SnapshotError>(
            SnapshotError::LimitExceeded(
                LimitFault::Mutations {
                    given: mutations.len() as usize,
                    limit: limits.max_mutations,
                },
            ),
        )
    } else {
        match mutation_fault(mutations, payloads, mutations.len(), limits.max_payload_bytes) {
            Some(told) => result matches Err(error) && error@ == told,
            None => result matches Ok(prepared) && {
                &&& prepared@.len() == mutations.len()
                &&& forall|i: int|
                    0 <= i < mutations.len() ==> (#[trigger] prepared@[i])@ == prepared_form(
                        mutations[i],
                    )
            },
        }
    }
}

/// Prepares a batch of mutations: each path normal, below the root and named
/// once, each mode sound, each payload a regular file, all within the limits.
pub fn prepare_mutations(
    mutations: &Vec<SnapshotMutation>,
    payloads: &Vec<Payload>,
    limits: SnapshotMutationLimits,
) -> (result: Result<Vec<PreparedMutation>, SnapshotError>)
    requires
        mutations@.len() == payloads@.len(),
    ensures
        is_batch(mutations@, payloads@, limits, result),
{
    if mutations.len() > limits.max_mutations {
        return Err(
            SnapshotError::LimitExceeded(
                LimitFault::Mutations { given: mutations.len(), limit: limits.max_mutations },
            ),
        );
    }
    let mut named: PathMap<u32> = PathMap::new();
    let mut payload_bytes: u64 = 0;
    let mut prepared: Vec<PreparedMutation> = Vec::new();
    let mut i: usize = 0;
    while i < mutations.len()
        invariant
            mutations@.len() == payloads@.len(),
            mutations@.len() <= limits.max_mutations,
            i <= mutations@.len(),
            named.wf(),
            forall|p: Names|
                #[trigger] named@.dom().contains(p) <==> exists|j: int|
                    0 <= j < i && path::relative_names((#[trigger] mutations@[j]).target()) == Some(p),
            payload_bytes == payload_total(mutations@, payloads@, i as nat),
            mutation_fault(mutations@, payloads@, i as nat, limits.max_payload_bytes) is None,
            prepared@.len() == i,
            forall|j: int| 0 <= j < i ==> (#[trigger] prepared@[j])@ == prepared_form(mutations@[j]),
        decreases mutations@.len() - i,
    {
        let ghost whole = mutations@;
        proof {
            assert(mutation_fault(whole, payloads@, (i + 1) as nat, limits.max_payload_bytes)
                == mutation_fault_at(whole, payloads@, i as int, limits.max_payload_bytes));
            if mutation_fault_at(whole, payloads@, i as int, limits.max_payload_bytes) is Some {
                lemma_mutation_fault_stays(
                    whole,
                    payloads@,
                    (i + 1) as nat,
                    whole.len(),
                    limits.max_payload_bytes,
                );
            }
            lemma_payload_step(whole, payloads@, i as nat);
        }
        let target = match RelPath::parse(mutations[i].path()) {
            Some(parsed) => parsed,
            None => {
                return Err(SnapshotError::InvalidPath(PathFault::NotRelative));
            },
        };
        let ghost names = target@;
        if target.is_root() {
            return Err(SnapshotError::InvalidPath(PathFault::Root));
        }
        let ghost before = named@;
        let key = target.copy();
        if named.insert(key, 0) {
            proof {
                assert(before.dom().contains(names));
                let j = choose|j: int|
                    0 <= j < i && path::relative_names((#[trigger] whole[j]).target()) == Some(names);
                assert(path::relative_names(whole[j].target()) == path::relative_names(whole[i as int].target()));
            }
            return Err(SnapshotError::InvalidPath(PathFault::Duplicate));
        }
        proof {
            assert forall|p: Names|
                #[trigger] named@.dom().contains(p) <==> exists|j: int|
                    0 <= j < i + 1 && path::relative_names((#[trigger] whole[j]).target()) == Some(p) by {
                if before.dom().contains(p) {
                    let j = choose|j: int|
                        0 <= j < i && path::relative_names((#[trigger] whole[j]).target()) == Some(p);
                    assert(path::relative_names(whole[j].target()) == Some(p));
                }
                if p == names {
                    assert(path::relative_names(whole[i as int].target()) == Some(p));
                }
            }
            assert(forall|j: int|
                0 <= j < i ==> path::relative_names((#[trigger] whole[j]).target()) != path::relative_names(
                    whole[i as int].target(),
                )) by {
                assert(!before.dom().contains(names));
            }
        }
        match &mutations[i] {
            SnapshotMutation::PutFile { source, mode, .. } => {
                match validate_mode(*mode) {
                    Ok(_) => {},
                    Err(error) => {
                        return Err(error);
                    },
                }
                match payloads[i] {
                    Payload::RegularFile { len } => {
                        let total = payload_bytes.checked_add(len);
                        match total {
                            Some(sum) => {
                                if sum > limits.max_payload_bytes {
                                    return Err(
                                        SnapshotError::LimitExceeded(
                                            LimitFault::PayloadBytes { max_bytes: limits.max_payload_bytes },
                                        ),
                                    );
                                }
                                payload_bytes = sum;
                            },
                            None => {
                                return Err(
                                    SnapshotError::LimitExceeded(
                                        LimitFault::PayloadBytes { max_bytes: limits.max_payload_bytes },
                                    ),
                                );
                            },
                        }
                    },
                    Payload::OtherKind => {
                        return Err(SnapshotError::UnsupportedFileType { path: copy_bytes(source.as_slice()) });
                    },
                    Payload::Unneeded | Payload::Failed => {
                        return Err(SnapshotError::Operation(Step::InspectEntry));
                    },
                }
                let copied = copy_bytes(source.as_slice());
                prepared.push(PreparedMutation::PutFile { path: target, source: copied, mode: *mode });
            },
            SnapshotMutation::RemoveFile { .. } => {
                prepared.push(PreparedMutation::RemoveFile { path: target });
            },
            SnapshotMutation::MakeDirectory { mode, .. } => {
                match validate_mode(*mode) {
                    Ok(_) => {},
                    Err(error) => {
                        return Err(error);
                    },
                }
                let settled: u32 = match *mode {
                    Some(bits) => bits,
                    None => DEFAULT_NEW_DIRECTORY_MODE,
                };
                prepared.push(PreparedMutation::MakeDirectory { path: target, mode: settled });
            },
            SnapshotMutation::RemoveDirectory { .. } => {
                prepared.push(PreparedMutation::RemoveDirectory { path: target });
            },
        }
        i = i + 1;
    }
    Ok(prepared)
}

proof fn lemma_payload_step(mutations: Seq<SnapshotMutation>, payloads: Seq<Payload>, i: nat)
    requires
        i < mutations.len(),
        mutations.len() == payloads.len(),
    ensures
        payload_total(mutations, payloads, i + 1) == payload_total(mutations, payloads, i) + match (
            mutations[i as int],
            payloads[i as int],
        ) {
            (SnapshotMutation::PutFile { .. }, Payload::RegularFile { len }) => len as int,
            _ => 0,
        },
{
}

/// What is at the path of a mutation in the tree that is being derived.
#[derive(Clone, Copy, Debug, PartialEq, Eq, Structural)]
pub enum TargetProbe {
    Missing,
    RegularFile { mode: u32 },
    Directory,
    OtherKind,
    Failed,
}

/// What a mutation does to the tree that is being derived.
#[derive(Clone, Copy, Debug, PartialEq, Eq, Structural)]
pub enum MutationAction {
    /// Removes the file that is there, then copies the payload with a mode.
    ReplaceFile { mode: u32 },
    /// Copies the payload with a mode.
    CreateFile { mode: u32 },
    RemoveFile,
    MakeDirectory,
    RemoveDirectory,
}

/// Checks one directory on the way to the path of a mutation: it has to be a
/// plain one.
pub fn check_plain_parent(probe: PathProbe) -> (result: Result<(), SnapshotError>)
    ensures
        result == match probe {
            PathProbe::Found { is_directory, is_symlink } => if is_symlink || !is_directory {
                Err::<(), SnapshotError>(SnapshotError::InvalidPath(PathFault::ParentNotPlain))
            } else {
                Ok::<(), SnapshotError>(())
            },
            _ => Err::<(), SnapshotError>(SnapshotError::Operation(Step::InspectEntry)),
        },
{
    match probe {
        PathProbe::Found { is_directory, is_symlink } => {
            if is_symlink || !is_directory {
                Err(SnapshotError::InvalidPath(PathFault::ParentNotPlain))
            } else {
                Ok(())
            }
        },
        PathProbe::Missing | PathProbe::Failed => Err(SnapshotError::Operation(Step::InspectEntry)),
    }
}

/// What a mutation does where something is, or is not, at its path.
pub open spec fn mutation_action(mutation: Prepared, probe: TargetProbe) -> Result<
    MutationAction,
    Told,
> {
    match (mutation, probe) {
        (_, TargetProbe::Failed) => Err(Told::Other(SnapshotError::Operation(Step::InspectEntry))),
        (Prepared::PutFile { mode, .. }, TargetProbe::RegularFile { mode: current }) => Ok(
            MutationAction::ReplaceFile {
                mode: match mode {
                    Some(bits) => bits,
                    None => current & PERMISSION_BITS,
                },
            },
        ),
        (Prepared::PutFile { mode, .. }, TargetProbe::Missing) => Ok(
            MutationAction::CreateFile {
                mode: match mode {
                    Some(bits) => bits,
                    None => DEFAULT_NEW_FILE_MODE,
                },
            },
        ),
        (Prepared::PutFile { path, .. }, _) => Err(Told::UnsupportedFileType { path: path::joined(path) }),
        (Prepared::MakeDirectory { .. }, TargetProbe::Missing) => Ok(MutationAction::MakeDirectory),
        (Prepared::MakeDirectory { .. }, _) => Err(Told::Other(SnapshotError::Operation(Step::Exists))),
        (_, TargetProbe::Missing) => Err(Told::Other(SnapshotError::Operation(Step::InspectEntry))),
        (Prepared::RemoveFile { .. }, TargetProbe::RegularFile { .. }) => Ok(MutationAction::RemoveFile),
        (Prepared::RemoveDirectory { .. }, TargetProbe::Directory) => Ok(MutationAction::RemoveDirectory),
        (Prepared::RemoveFile { path }, _) => Err(Told::UnsupportedFileType { path: path::joined(path) }),
        (Prepared::RemoveDirectory { path }, _) => Err(Told::UnsupportedFileType { path: path::joined(path) }),
    }
}

/// The modes that the backend keeps, after a mutation.
pub open spec fn modes_after(modes: Map<Names, u32>, mutation: Prepared, after: Map<Names, u32>) -> bool {
    match mutation {
        Prepared::PutFile { path, .. } => keeps_outside(modes, path, after),
        Prepared::RemoveFile { .. } => after == modes,
        Prepared::MakeDirectory { path, mode } => after == modes.insert(path, mode),
        Prepared::RemoveDirectory { path } => keeps_outside(modes, path, after),
    }
}

/// What does not lie at or below a root is kept, all else goes.
pub open spec fn keeps_outside(modes: Map<Names, u32>, root: Names, after: Map<Names, u32>) -> bool {
    &&& forall|p: Names|
        #[trigger] after.dom().contains(p) <==> (modes.dom().contains(p) && !path::lies_under(p, root))
    &&& forall|p: Names| #[trigger] after.dom().contains(p) ==> after[p] == modes[p]
}

impl PreparedMutation {
    /// Decides what the mutation does where something is, or is not, at its path.
    pub fn decide(&self, probe: TargetProbe) -> (result: Result<MutationAction, SnapshotError>)
        ensures
            match result {
                Ok(action) => mutation_action(self@, probe) == Ok::<MutationAction, Told>(action),
                Err(error) => mutation_action(self@, probe) == Err::<MutationAction, Told>(error@),
            },
    {
        match (self, probe) {
            (_, TargetProbe::Failed) => Err(SnapshotError::Operation(Step::InspectEntry)),
            (PreparedMutation::PutFile { mode, .. }, TargetProbe::RegularFile { mode: current }) => {
                let settled: u32 = match *mode {
                    Some(bits) => bits,
                    None => permission_mode(current),
                };
                Ok(MutationAction::ReplaceFile { mode: settled })
            },
            (PreparedMutation::PutFile { mode, .. }, TargetProbe::Missing) => {
                let settled: u32 = match *mode {
                    Some(bits) => bits,
                    None => DEFAULT_NEW_FILE_MODE,
                };
                Ok(MutationAction::CreateFile { mode: settled })
            },
            (PreparedMutation::PutFile { path, .. }, _) => Err(
                SnapshotError::UnsupportedFileType { path: path.to_bytes() },
            ),
            (PreparedMutation::MakeDirectory { .. }, TargetProbe::Missing) => Ok(
                MutationAction::MakeDirectory,
            ),
            (PreparedMutation::MakeDirectory { .. }, _) => Err(SnapshotError::Operation(Step::Exists)),
            (_, TargetProbe::Missing) => Err(SnapshotError::Operation(Step::InspectEntry)),
            (PreparedMutation::RemoveFile { .. }, TargetProbe::RegularFile { .. }) => Ok(
                MutationAction::RemoveFile,
            ),
            (PreparedMutation::RemoveDirectory { .. }, TargetProbe::Directory) => Ok(
                MutationAction::RemoveDirectory,
            ),
            (PreparedMutation::RemoveFile { path }, _) => Err(
                SnapshotError::UnsupportedFileType { path: path.to_bytes() },
            ),
            (PreparedMutation::RemoveDirectory { path }, _) => Err(
                SnapshotError::UnsupportedFileType { path: path.to_bytes() },
            ),
        }
    }

    /// Records what the mutation does to the modes that the backend keeps.
    pub fn record_modes(&self, modes: &mut PathMap<u32>)
        requires
            old(modes).wf(),
        ensures
            final(modes).wf(),
            modes_after(old(modes)@, self@, final(modes)@),
    {
        match self {
            PreparedMutation::PutFile { path, .. } => {
                modes.remove_under(path);
            },
            PreparedMutation::RemoveFile { .. } => {},
            PreparedMutation::MakeDirectory { path, mode } => {
                let key = path.copy();
                modes.insert(key, *mode);
            },
            PreparedMutation::RemoveDirectory { path } => {
                modes.remove_under(path);
            },
        }
    }
}

/// An accepted batch names every path once, and never the root.
pub proof fn law_accepted_batch_names_paths_once(
    mutations: Seq<SnapshotMutation>,
    payloads: Seq<Payload>,
    max_payload_bytes: u64,
    i: int,
    j: int,
)
    requires
        mutation_fault(mutations, payloads, mutations.len(), max_payload_bytes) is None,
        0 <= i < j < mutations.len(),
    ensures
        path::relative_names(mutations[i].target()) != path::relative_names(mutations[j].target()),
        path::relative_names(mutations[j].target()) matches Some(names) && names.len() > 0,
{
    lemma_no_mutation_fault(mutations, payloads, mutations.len(), max_payload_bytes, j);
}

proof fn lemma_no_mutation_fault(
    mutations: Seq<SnapshotMutation>,
    payloads: Seq<Payload>,
    count: nat,
    max_payload_bytes: u64,
    i: int,
)
    requires
        mutation_fault(mutations, payloads, count, max_payload_bytes) is None,
        0 <= i < count,
    ensures
        mutation_fault_at(mutations, payloads, i, max_payload_bytes) is None,
    decreases count,
{
    if i < count - 1 {
        lemma_no_mutation_fault(mutations, payloads, (count - 1) as nat, max_payload_bytes, i);
    }
}

/// A mutation is made only of what it changes: a file is put where a file is or where
/// nothing is, a file is removed where one is, a directory is made where nothing is, and
/// one is removed where one is; everything else is refused.
pub proof fn law_mutations_change_what_they_name(
    path: Names,
    source: Seq<u8>,
    file_mode: Option<u32>,
    mode: u32,
    probe: TargetProbe,
)
    ensures
        ({
            let put = mutation_action(Prepared::PutFile { path, source, mode: file_mode }, probe);
            let removed = mutation_action(Prepared::RemoveFile { path }, probe);
            let made = mutation_action(Prepared::MakeDirectory { path, mode }, probe);
            let cleared = mutation_action(Prepared::RemoveDirectory { path }, probe);
            &&& put is Ok <==> probe is RegularFile || probe is Missing
            &&& probe is Missing ==> put == Ok::<MutationAction, Told>(
                MutationAction::CreateFile {
                    mode: match file_mode {
                        Some(bits) => bits,
                        None => 0o644,
                    },
                },
            )
            &&& probe matches TargetProbe::RegularFile { mode: current } ==> put == Ok::<MutationAction, Told>(
                MutationAction::ReplaceFile {
                    mode: match file_mode {
                        Some(bits) => bits,
                        None => current & 0o7777,
                    },
                },
            )
            &&& removed is Ok <==> probe is RegularFile
            &&& removed is Ok ==> removed->Ok_0 is RemoveFile
            &&& made is Ok <==> probe is Missing
            &&& made is Ok ==> made->Ok_0 is MakeDirectory
            &&& cleared is Ok <==> probe is Directory
            &&& cleared is Ok ==> cleared->Ok_0 is RemoveDirectory
        }),
{
}

/// Whether one mutation of a batch is in order: it names a path below the root that no
/// earlier one names, a mode of nothing but permissions, and a plain file to put.
pub open spec fn is_sound(mutations: Seq<SnapshotMutation>, payloads: Seq<Payload>, i: int) -> bool {
    let names = path::relative_names(mutations[i].target());
    &&& names matches Some(below) && below.len() > 0
    &&& forall|j: int| 0 <= j < i ==> path::relative_names((#[trigger] mutations[j]).target()) != names
    &&& mutations[i] matches SnapshotMutation::PutFile { mode: Some(bits), .. } ==> bits <= 0o7777
    &&& mutations[i] matches SnapshotMutation::MakeDirectory { mode: Some(bits), .. } ==> bits <= 0o7777
    &&& mutations[i] is PutFile ==> payloads[i] is RegularFile
}

/// The bytes of all files that a batch puts.
pub open spec fn bytes_put(mutations: Seq<SnapshotMutation>, payloads: Seq<Payload>) -> int
    decreases mutations.len(),
{
    if mutations.len() == 0 {
        0
    } else {
        bytes_put(mutations.drop_last(), payloads) + match (mutations.last(), payloads[mutations.len() - 1]) {
            (SnapshotMutation::PutFile { .. }, Payload::RegularFile { len }) => len as int,
            _ => 0,
        }
    }
}

proof fn lemma_bytes_put(mutations: Seq<SnapshotMutation>, payloads: Seq<Payload>, count: nat)
    requires
        count <= mutations.len(),
    ensures
        payload_total(mutations, payloads, count) == bytes_put(mutations.take(count as int), payloads),
        0 <= payload_total(mutations, payloads, count),
        forall|less: nat|
            less <= count ==> #[trigger] payload_total(mutations, payloads, less) <= payload_total(
                mutations,
                payloads,
                count,
            ),
    decreases count,
{
    if count > 0 {
        lemma_bytes_put(mutations, payloads, (count - 1) as nat);
        assert(mutations.take(count as int).drop_last() =~= mutations.take(count - 1));
    }
}

proof fn lemma_sound_batch(mutations: Seq<SnapshotMutation>, payloads: Seq<Payload>, count: nat, max_payload_bytes: u64)
    requires
        count <= mutations.len(),
    ensures
        mutation_fault(mutations, payloads, count, max_payload_bytes) is None <==> (forall|i: int|
            0 <= i < count ==> #[trigger] is_sound(mutations, payloads, i)) && payload_total(mutations, payloads, count)
            <= max_payload_bytes,
    decreases count,
{
    lemma_bytes_put(mutations, payloads, count);
    if count > 0 {
        let last = count - 1;
        lemma_sound_batch(mutations, payloads, last as nat, max_payload_bytes);
        assert(payload_total(mutations, payloads, last as nat) <= payload_total(mutations, payloads, count));
        if mutation_fault(mutations, payloads, count, max_payload_bytes) is None {
            assert(is_sound(mutations, payloads, last));
        }
        if forall|i: int| 0 <= i < count ==> #[trigger] is_sound(mutations, payloads, i) {
            assert(is_sound(mutations, payloads, last));
        }
    }
}

/// A batch is accepted exactly where each of its mutations is in order and the files that it
/// puts have together no more bytes than the limit.
pub proof fn law_sound_batches_are_accepted(mutations: Seq<SnapshotMutation>, payloads: Seq<Payload>, max_payload_bytes: u64)
    ensures
        mutation_fault(mutations, payloads, mutations.len(), max_payload_bytes) is None <==> (forall|i: int|
            0 <= i < mutations.len() ==> #[trigger] is_sound(mutations, payloads, i)) && bytes_put(mutations, payloads)
            <= max_payload_bytes,
{
    lemma_sound_batch(mutations, payloads, mutations.len(), max_payload_bytes);
    lemma_bytes_put(mutations, payloads, mutations.len());
    assert(mutations.take(mutations.len() as int) =~= mutations);
}

/// A mutation is prepared with what it says: its path in normal form, the file that it puts
/// and its mode; a directory without a mode gets the usual one.
pub proof fn law_prepared_mutations_say_the_same(mutation: SnapshotMutation)
    requires
        path::relative_names(mutation.target()) is Some,
    ensures
        ({
            let names = path::relative_names(mutation.target())->0;
            match mutation {
                SnapshotMutation::PutFile { source, mode, .. } => prepared_form(mutation) == (Prepared::PutFile {
                    path: names,
                    source: source@,
                    mode,
                }),
                SnapshotMutation::RemoveFile { .. } => prepared_form(mutation) == (Prepared::RemoveFile { path: names }),
                SnapshotMutation::MakeDirectory { mode, .. } => prepared_form(mutation) matches Prepared::MakeDirectory {
                    path: at,
                    mode: bits,
                } && at == names && bits == if mode is Some {
                    mode->0
                } else {
                    0o755
                },
                SnapshotMutation::RemoveDirectory { .. } => prepared_form(mutation) == (Prepared::RemoveDirectory {
                    path: names,
                }),
            }
        }),
{
}

/// The modes of directories follow a mutation: a new directory has its mode, a removed one
/// has none, and neither has what lies below a file that is put; all others stay.
pub proof fn law_modes_follow_mutations(
    modes: Map<Names, u32>,
    path: Names,
    source: Seq<u8>,
    file_mode: Option<u32>,
    mode: u32,
    after: Map<Names, u32>,
    p: Names,
)
    ensures
        modes_after(modes, Prepared::MakeDirectory { path, mode }, after) ==> after.dom().contains(path) && after[path]
            == mode && (p != path ==> (after.dom().contains(p) <==> modes.dom().contains(p))),
        modes_after(modes, Prepared::RemoveDirectory { path }, after) ==> (after.dom().contains(p) <==> modes.dom().contains(
            p,
        ) && !path::lies_under(p, path)),
        modes_after(modes, Prepared::PutFile { path, source, mode: file_mode }, after) ==> (after.dom().contains(p)
            <==> modes.dom().contains(p) && !path::lies_under(p, path)),
        modes_after(modes, Prepared::RemoveFile { path }, after) ==> after == modes,
        modes_after(modes, Prepared::RemoveDirectory { path }, after) && after.dom().contains(p) ==> after[p] == modes[p],
{
}

} // verus!
