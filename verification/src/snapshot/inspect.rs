//! Looking into a snapshot: entries, pages of directories, differences.

use crate::error::{DescriptorFault, LimitFault, PathFault, SnapshotError, Step, Told};
use crate::path;
use crate::path::{path_starts_with, Names, RelPath};
use crate::path_map::PathMap;
use crate::snapshot::compare;
use crate::snapshot::delta::{SnapshotDelta, SnapshotDeltaSummary};
use crate::snapshot::diff;
use crate::snapshot::diff::{diff_indexes, SnapshotChange, SnapshotDiff};
use crate::snapshot::handle::FsSnapshot;
use crate::snapshot::index::SnapshotIndex;
use crate::snapshot::inventory;
use crate::snapshot::inventory::{copy_optional, entry_kind, entry_mode};
use crate::snapshot::lifecycle;
use crate::snapshot::lifecycle::read_index;
use crate::snapshot::mutation;
use crate::snapshot::mutation::{
    prepare_mutations, Payload, PreparedMutation, SnapshotMutation, SnapshotMutationLimits,
};
use crate::snapshot::{
    EntryView, SnapshotEntry, SnapshotEntryKind, SnapshotList, DEFAULT_SCAN_ENTRY_BUDGET,
    DEFAULT_SCAN_PATH_BYTE_BUDGET,
};
use vstd::prelude::*;

verus! {

/// The metadata of an entry.
#[derive(Clone, Copy, Debug, PartialEq, Eq, Structural)]
pub struct EntryMetadata {
    pub is_file: bool,
    pub is_directory: bool,
    pub is_symlink: bool,
    pub mode: u32,
    pub len: u64,
}

/// The directory modes that a backend keeps.
pub enum KeptModes {
    /// It keeps none.
    Missing,
    Held(PathMap<u32>),
    /// They cannot be read.
    Unreadable,
    /// They are not what they should be.
    Malformed,
}

/// What was seen of one path of a snapshot.
pub struct EntryEvidence {
    /// The canonical path of its parent.
    pub canonical_parent: Option<Vec<u8>>,
    pub metadata: Option<EntryMetadata>,
    pub symlink_target: Option<Vec<u8>>,
    pub modes: KeptModes,
}

/// The map of kept modes is ordered.
pub open spec fn modes_wf(modes: KeptModes) -> bool {
    modes matches KeptModes::Held(held) ==> held.wf()
}

/// The modes that are kept.
pub open spec fn held_modes(modes: KeptModes) -> Map<Names, u32> {
    match modes {
        KeptModes::Held(held) => held@,
        _ => Map::empty(),
    }
}

/// Why a path does not lie in a snapshot.
pub open spec fn containment_fault(tree_dir: Seq<u8>, canonical: Option<Vec<u8>>) -> Option<SnapshotError> {
    match canonical {
        None => Some(SnapshotError::Operation(Step::InspectEntry)),
        Some(found) => if path::starts_with(path::parts(found@), path::parts(tree_dir)) {
            None
        } else {
            Some(SnapshotError::InvalidPath(PathFault::Escapes))
        },
    }
}

/// Checks that a canonical path lies in a snapshot.
fn check_contained(tree_dir: &[u8], canonical: &Option<Vec<u8>>) -> (result: Result<(), SnapshotError>)
    ensures
        match containment_fault(tree_dir@, *canonical) {
            Some(error) => result == Err::<(), SnapshotError>(error),
            None => result is Ok,
        },
{
    match canonical {
        None => Err(SnapshotError::Operation(Step::InspectEntry)),
        Some(found) => {
            if path_starts_with(found.as_slice(), tree_dir) {
                Ok(())
            } else {
                Err(SnapshotError::InvalidPath(PathFault::Escapes))
            }
        },
    }
}

/// Why an entry cannot be told.
pub open spec fn entry_fault(tree_dir: Seq<u8>, at: Names, seen: EntryEvidence) -> Option<Told> {
    if containment_fault(tree_dir, seen.canonical_parent) is Some {
        Some(Told::Other(containment_fault(tree_dir, seen.canonical_parent)->0))
    } else {
        match seen.metadata {
            None => Some(Told::Other(SnapshotError::Operation(Step::InspectEntry))),
            Some(found) => match inventory::kind_from(found.is_file, found.is_directory, found.is_symlink) {
                None => Some(Told::UnsupportedFileType { path: path::joined(at) }),
                Some(SnapshotEntryKind::Symlink) => if seen.symlink_target is None {
                    Some(Told::Other(SnapshotError::Operation(Step::InspectEntry)))
                } else {
                    None
                },
                Some(SnapshotEntryKind::Directory) => match seen.modes {
                    KeptModes::Unreadable => Some(Told::Other(SnapshotError::Operation(Step::InspectEntry))),
                    KeptModes::Malformed => Some(
                        Told::Other(SnapshotError::InvalidDescriptor(DescriptorFault::MetadataUnreadable)),
                    ),
                    _ => None,
                },
                Some(SnapshotEntryKind::File) => None,
            },
        }
    }
}

/// What is told of an entry.
pub open spec fn entry_told(at: Names, seen: EntryEvidence) -> EntryView {
    let found = seen.metadata->0;
    let kind = inventory::kind_from(found.is_file, found.is_directory, found.is_symlink)->0;
    EntryView {
        path: at,
        kind,
        mode: inventory::backend_mode(held_modes(seen.modes), at, kind, found.mode),
        len: found.len,
        symlink_target: if kind is Symlink {
            inventory::bytes_of(seen.symlink_target)
        } else {
            None
        },
    }
}

/// Tells one entry of a snapshot, without following its final symbolic link.
pub fn snapshot_entry(tree_dir: &[u8], at: RelPath, seen: &EntryEvidence) -> (result: Result<
    SnapshotEntry,
    SnapshotError,
>)
    requires
        modes_wf(seen.modes),
    ensures
        match entry_fault(tree_dir@, at@, *seen) {
            Some(told) => result matches Err(error) && error@ == told,
            None => result matches Ok(entry) && entry@ == entry_told(at@, *seen),
        },
{
    match check_contained(tree_dir, &seen.canonical_parent) {
        Ok(_) => {},
        Err(error) => {
            return Err(error);
        },
    }
    let found = match seen.metadata {
        Some(found) => found,
        None => {
            return Err(SnapshotError::Operation(Step::InspectEntry));
        },
    };
    let named = at.to_bytes();
    let kind = match entry_kind(named.as_slice(), found.is_file, found.is_directory, found.is_symlink) {
        Ok(kind) => kind,
        Err(error) => {
            return Err(error);
        },
    };
    let none: PathMap<u32> = PathMap::new();
    match kind {
        SnapshotEntryKind::Symlink => {
            if seen.symlink_target.is_none() {
                return Err(SnapshotError::Operation(Step::InspectEntry));
            }
            let mode = entry_mode(&none, &at, kind, found.mode);
            let symlink_target = copy_optional(&seen.symlink_target);
            Ok(SnapshotEntry { path: at, kind, mode, len: found.len, symlink_target })
        },
        SnapshotEntryKind::File => {
            let mode = entry_mode(&none, &at, kind, found.mode);
            Ok(SnapshotEntry { path: at, kind, mode, len: found.len, symlink_target: None })
        },
        SnapshotEntryKind::Directory => {
            let mode = match &seen.modes {
                KeptModes::Unreadable => {
                    return Err(SnapshotError::Operation(Step::InspectEntry));
                },
                KeptModes::Malformed => {
                    return Err(SnapshotError::InvalidDescriptor(DescriptorFault::MetadataUnreadable));
                },
                KeptModes::Missing => entry_mode(&none, &at, kind, found.mode),
                KeptModes::Held(held) => entry_mode(held, &at, kind, found.mode),
            };
            Ok(SnapshotEntry { path: at, kind, mode, len: found.len, symlink_target: None })
        },
    }
}

/// What is to be read of a file.
pub struct ReadPlan {
    pub path: RelPath,
    pub offset: u64,
    pub max_bytes: usize,
}

/// Why a file cannot be read.
pub open spec fn read_fault(tree_dir: Seq<u8>, seen: EntryEvidence) -> Option<SnapshotError> {
    if containment_fault(tree_dir, seen.canonical_parent) is Some {
        containment_fault(tree_dir, seen.canonical_parent)
    } else {
        match seen.metadata {
            None => Some(SnapshotError::Operation(Step::InspectEntry)),
            Some(found) => if found.is_file {
                None
            } else {
                Some(SnapshotError::Operation(Step::WrongKind))
            },
        }
    }
}

/// The order of paths in a page.
pub open spec fn paths_sorted(list: Seq<Names>) -> bool {
    forall|i: int, j: int| 0 <= i < j < list.len() ==> !path::path_before(#[trigger] list[j], #[trigger] list[i])
}

proof fn lemma_path_order(a: Names, b: Names, c: Names)
    requires
        path::path_before(a, b),
        !path::path_before(c, b),
    ensures
        path::path_before(a, c),
{
    path::lemma_path_total(b, c);
    if b != c {
        path::lemma_path_transitive(a, b, c);
    }
}

/// Sorts paths.
pub fn sort_paths(found: Vec<RelPath>) -> (sorted: Vec<RelPath>)
    ensures
        paths_sorted(path::path_views(sorted@)),
        path::path_views(sorted@).to_multiset() == path::path_views(found@).to_multiset(),
        sorted@.len() == found@.len(),
{
    let mut sorted: Vec<RelPath> = Vec::new();
    let ghost all = path::path_views(found@);
    let mut k: usize = 0;
    proof {
        assert(path::path_views(sorted@) =~= all.take(0));
    }
    while k < found.len()
        invariant
            k <= found@.len(),
            sorted@.len() == k,
            all == path::path_views(found@),
            paths_sorted(path::path_views(sorted@)),
            path::path_views(sorted@).to_multiset() == all.take(k as int).to_multiset(),
        decreases found@.len() - k,
    {
        let added = found[k].copy();
        let ghost new = added@;
        let ghost before = path::path_views(sorted@);
        let mut at: usize = sorted.len();
        while at > 0 && added.precedes(&sorted[at - 1])
            invariant
                at <= sorted@.len(),
                new == added@,
                before == path::path_views(sorted@),
                paths_sorted(before),
                forall|i: int| at <= i < before.len() ==> path::path_before(new, #[trigger] before[i]),
            decreases at,
        {
            at = at - 1;
        }
        proof {
            if at > 0 {
                assert(before[at - 1] == sorted@[at - 1]@);
            }
        }
        sorted.insert(at, added);
        proof {
            let after = path::path_views(sorted@);
            assert(after =~= before.insert(at as int, new));
            assert forall|i: int| 0 <= i < at implies !path::path_before(new, #[trigger] before[i]) by {
                if path::path_before(new, before[i]) && i < at - 1 {
                    assert(!path::path_before(before[at - 1], before[i]));
                    lemma_path_order(new, before[i], before[at - 1]);
                }
            }
            assert forall|i: int, j: int| 0 <= i < j < after.len() implies !path::path_before(
                #[trigger] after[j],
                #[trigger] after[i],
            ) by {
                let old_i = if i < at { i } else { i - 1 };
                let old_j = if j < at { j } else { j - 1 };
                if i == at {
                    assert(path::path_before(new, before[old_j]));
                    if path::path_before(before[old_j], new) {
                        path::lemma_path_transitive(new, before[old_j], new);
                        path::lemma_path_irreflexive(new);
                    }
                } else if j == at {
                    assert(!path::path_before(new, before[old_i]));
                } else {
                    assert(!path::path_before(before[old_j], before[old_i]));
                }
            }
            vstd::seq_lib::to_multiset_insert(before, at as int, new);
            assert(all.take(k as int + 1) =~= all.take(k as int).push(new));
            vstd::seq_lib::to_multiset_build(all.take(k as int), new);
        }
        k = k + 1;
    }
    proof {
        assert(all.take(k as int) =~= all);
    }
    sorted
}

/// What was seen of a directory of a snapshot.
pub struct DirectoryEvidence {
    /// Its canonical path.
    pub canonical: Option<Vec<u8>>,
    /// Whether that is a directory, where it could be looked at.
    pub is_directory: Option<bool>,
    /// The names in it, where they could be read.
    pub names: Option<Vec<RelPath>>,
}

/// The bytes of some names below a directory.
pub open spec fn listed_bytes(at: Names, names: Seq<Names>) -> int
    decreases names.len(),
{
    if names.len() == 0 {
        0
    } else {
        listed_bytes(at, names.drop_last()) + path::joined(at + names.last()).len()
    }
}

/// The first fault of listing some names.
pub open spec fn listing_fault(at: Names, names: Seq<Names>, count: nat) -> Option<LimitFault>
    decreases count,
{
    if count == 0 {
        None
    } else if listing_fault(at, names, (count - 1) as nat) is Some {
        listing_fault(at, names, (count - 1) as nat)
    } else if count > DEFAULT_SCAN_ENTRY_BUDGET {
        Some(LimitFault::Entries { limit: DEFAULT_SCAN_ENTRY_BUDGET })
    } else if listed_bytes(at, names.take(count as int)) > DEFAULT_SCAN_PATH_BYTE_BUDGET {
        Some(LimitFault::PathBytes { limit: DEFAULT_SCAN_PATH_BYTE_BUDGET })
    } else {
        None
    }
}

proof fn lemma_listing_fault_stays(at: Names, names: Seq<Names>, few: nat, many: nat)
    requires
        few <= many,
        listing_fault(at, names, few) is Some,
    ensures
        listing_fault(at, names, many) == listing_fault(at, names, few),
    decreases many,
{
    if few < many {
        lemma_listing_fault_stays(at, names, few, (many - 1) as nat);
    }
}

/// Why a directory cannot be listed.
pub open spec fn list_fault(tree_dir: Seq<u8>, at: Names, offset: usize, max_entries: usize, seen: DirectoryEvidence) -> Option<
    SnapshotError,
> {
    if containment_fault(tree_dir, seen.canonical) is Some {
        containment_fault(tree_dir, seen.canonical)
    } else if seen.is_directory is None {
        Some(SnapshotError::Operation(Step::InspectEntry))
    } else if !seen.is_directory->0 {
        Some(SnapshotError::Operation(Step::WrongKind))
    } else if offset + max_entries > usize::MAX {
        Some(SnapshotError::LimitExceeded(LimitFault::PageOverflow))
    } else if offset + max_entries > DEFAULT_SCAN_ENTRY_BUDGET {
        Some(
            SnapshotError::LimitExceeded(
                LimitFault::PageTooFar { requested: (offset + max_entries) as usize },
            ),
        )
    } else if seen.names is None {
        Some(SnapshotError::Operation(Step::InspectEntry))
    } else {
        match listing_fault(at, path::path_views(seen.names->0@), seen.names->0@.len()) {
            Some(fault) => Some(SnapshotError::LimitExceeded(fault)),
            None => None,
        }
    }
}

/// One page of a directory: the paths whose entries are told.
pub struct ListPage {
    pub paths: Vec<RelPath>,
    pub offset: usize,
    pub total_entries: usize,
}

/// The paths of the names of a directory.
pub open spec fn child_paths(at: Names, names: Seq<Names>) -> Seq<Names> {
    Seq::new(names.len(), |i: int| at + names[i])
}

/// The page of a directory: of its paths in order, those from an offset on, at
/// most some of them.
pub open spec fn is_list_page(page: ListPage, at: Names, names: Seq<Names>, offset: usize, max_entries: usize) -> bool {
    &&& page.offset == offset
    &&& page.total_entries == names.len()
    &&& exists|sorted: Seq<Names>|
        #![trigger paths_sorted(sorted)]
        {
            &&& paths_sorted(sorted)
            &&& sorted.to_multiset() == child_paths(at, names).to_multiset()
            &&& sorted.len() == names.len()
            &&& path::path_views(page.paths@) == if offset >= sorted.len() {
                Seq::<Names>::empty()
            } else if offset + max_entries >= sorted.len() {
                sorted.skip(offset as int)
            } else {
                sorted.subrange(offset as int, offset + max_entries)
            }
        }
}

impl ListPage {
    /// The listing, given the entries of the page.
    pub fn finish(self, entries: Vec<SnapshotEntry>) -> (list: SnapshotList)
        ensures
            list.entries == entries,
            list.total_entries == self.total_entries,
            list.next_offset == if self.offset + entries@.len() < self.total_entries {
                Some((self.offset + entries@.len()) as usize)
            } else {
                None
            },
    {
        let consumed = compare::add_saturating(self.offset, entries.len());
        let next_offset = if consumed < self.total_entries {
            Some(consumed)
        } else {
            None
        };
        SnapshotList { entries, total_entries: self.total_entries, next_offset }
    }
}

/// The bytes of an index that were read.
pub struct IndexEvidence {
    pub is_plain_file: bool,
    pub bytes: Option<Vec<u8>>,
}

/// What comparing two snapshots that differ gives.
pub open spec fn is_indexed_diff(
    before: IndexEvidence,
    before_hash: Seq<u8>,
    after: IndexEvidence,
    after_hash: Seq<u8>,
    cursor: Option<RelPath>,
    max_changes: usize,
    result: Result<SnapshotDiff, SnapshotError>,
) -> bool {
    exists|left: Result<SnapshotIndex, SnapshotError>| #[trigger]
        lifecycle::is_index_read(
            before.is_plain_file,
            lifecycle::optional_bytes(before.bytes),
            before_hash,
            left,
        ) && match left {
            Err(error) => result == Err::<SnapshotDiff, SnapshotError>(error),
            Ok(base) => is_target_diff(base, after, after_hash, cursor, max_changes, result),
        }
}

/// What comparing an index with a stored one gives.
pub open spec fn is_target_diff(
    base: SnapshotIndex,
    after: IndexEvidence,
    after_hash: Seq<u8>,
    cursor: Option<RelPath>,
    max_changes: usize,
    result: Result<SnapshotDiff, SnapshotError>,
) -> bool {
    exists|right: Result<SnapshotIndex, SnapshotError>| #[trigger]
        lifecycle::is_index_read(
            after.is_plain_file,
            lifecycle::optional_bytes(after.bytes),
            after_hash,
            right,
        ) && match right {
            Err(error) => result == Err::<SnapshotDiff, SnapshotError>(error),
            Ok(target) => diff::is_diff_of(base, target, cursor, max_changes, result),
        }
}

/// A difference without changes.
pub open spec fn no_changes(found: SnapshotDiff) -> bool {
    &&& found.changes@.len() == 0
    &&& found.changed_paths == 0
    &&& !found.truncated
    &&& found.next_path is None
}

/// The names of an optional path.
pub open spec fn cursor_of(after: Option<&[u8]>) -> Option<Option<Names>> {
    match after {
        None => Some(None),
        Some(written) => match path::relative_names(written@) {
            Some(names) => Some(Some(names)),
            None => None,
        },
    }
}

impl FsSnapshot {
    /// Inspects one path without following its final symbolic link.
    pub fn stat(&self, at: &[u8], seen: &EntryEvidence) -> (result: Result<SnapshotEntry, SnapshotError>)
        requires
            modes_wf(seen.modes),
        ensures
            if self@.destroyed {
                result == Err::<SnapshotEntry, SnapshotError>(SnapshotError::AlreadyDestroyed)
            } else {
                match path::relative_names(at@) {
                    None => result == Err::<SnapshotEntry, SnapshotError>(
                        SnapshotError::InvalidPath(PathFault::NotRelative),
                    ),
                    Some(names) => match entry_fault(self@.tree_dir, names, *seen) {
                        Some(told) => result matches Err(error) && error@ == told,
                        None => result matches Ok(entry) && entry@ == entry_told(names, *seen),
                    },
                }
            },
    {
        match self.ensure_live() {
            Ok(_) => {},
            Err(error) => {
                return Err(error);
            },
        }
        match RelPath::parse(at) {
            Some(relative) => snapshot_entry(self.root_dir(), relative, seen),
            None => Err(SnapshotError::InvalidPath(PathFault::NotRelative)),
        }
    }

    /// Admits reading at most `max_bytes` of a regular file from an offset on.
    pub fn read_range(&self, at: &[u8], offset: u64, max_bytes: usize, seen: &EntryEvidence) -> (result: Result<
        ReadPlan,
        SnapshotError,
    >)
        ensures
            if self@.destroyed {
                result == Err::<ReadPlan, SnapshotError>(SnapshotError::AlreadyDestroyed)
            } else {
                match path::relative_names(at@) {
                    None => result == Err::<ReadPlan, SnapshotError>(
                        SnapshotError::InvalidPath(PathFault::NotRelative),
                    ),
                    Some(names) => match read_fault(self@.tree_dir, *seen) {
                        Some(error) => result == Err::<ReadPlan, SnapshotError>(error),
                        None => result matches Ok(plan) && plan.path@ == names && plan.offset == offset
                            && plan.max_bytes == max_bytes,
                    },
                }
            },
    {
        match self.ensure_live() {
            Ok(_) => {},
            Err(error) => {
                return Err(error);
            },
        }
        let relative = match RelPath::parse(at) {
            Some(relative) => relative,
            None => {
                return Err(SnapshotError::InvalidPath(PathFault::NotRelative));
            },
        };
        match check_contained(self.root_dir(), &seen.canonical_parent) {
            Ok(_) => {},
            Err(error) => {
                return Err(error);
            },
        }
        match seen.metadata {
            None => Err(SnapshotError::Operation(Step::InspectEntry)),
            Some(found) => {
                if found.is_file {
                    Ok(ReadPlan { path: relative, offset, max_bytes })
                } else {
                    Err(SnapshotError::Operation(Step::WrongKind))
                }
            },
        }
    }

    /// Pages the immediate children of a directory in deterministic bytewise
    /// path order.
    pub fn list(&self, at: &[u8], offset: usize, max_entries: usize, seen: &DirectoryEvidence) -> (result: Result<
        ListPage,
        SnapshotError,
    >)
        ensures
            if self@.destroyed {
                result == Err::<ListPage, SnapshotError>(SnapshotError::AlreadyDestroyed)
            } else {
                match path::relative_names(at@) {
                    None => result == Err::<ListPage, SnapshotError>(
                        SnapshotError::InvalidPath(PathFault::NotRelative),
                    ),
                    Some(names) => match list_fault(self@.tree_dir, names, offset, max_entries, *seen) {
                        Some(error) => result == Err::<ListPage, SnapshotError>(error),
                        None => result matches Ok(page) && is_list_page(
                            page,
                            names,
                            path::path_views(seen.names->0@),
                            offset,
                            max_entries,
                        ),
                    },
                }
            },
    {
        match self.ensure_live() {
            Ok(_) => {},
            Err(error) => {
                return Err(error);
            },
        }
        let relative = match RelPath::parse(at) {
            Some(relative) => relative,
            None => {
                return Err(SnapshotError::InvalidPath(PathFault::NotRelative));
            },
        };
        match check_contained(self.root_dir(), &seen.canonical) {
            Ok(_) => {},
            Err(error) => {
                return Err(error);
            },
        }
        match seen.is_directory {
            None => {
                return Err(SnapshotError::Operation(Step::InspectEntry));
            },
            Some(is_directory) => {
                if !is_directory {
                    return Err(SnapshotError::Operation(Step::WrongKind));
                }
            },
        }
        let requested: usize = match offset.checked_add(max_entries) {
            Some(requested) => requested,
            None => {
                return Err(SnapshotError::LimitExceeded(LimitFault::PageOverflow));
            },
        };
        if requested > DEFAULT_SCAN_ENTRY_BUDGET {
            return Err(SnapshotError::LimitExceeded(LimitFault::PageTooFar { requested }));
        }
        match &seen.names {
            None => Err(SnapshotError::Operation(Step::InspectEntry)),
            Some(names) => page_of(&relative, names, offset, max_entries),
        }
    }

    /// Compares two complete immutable trees, keeping at most `max_changes`.
    pub fn diff(
        &self,
        target: &FsSnapshot,
        max_changes: usize,
        before: &IndexEvidence,
        after: &IndexEvidence,
    ) -> (result: Result<SnapshotDiff, SnapshotError>)
        ensures
            if self@.destroyed || target@.destroyed {
                result == Err::<SnapshotDiff, SnapshotError>(SnapshotError::AlreadyDestroyed)
            } else if self@.root_hash == target@.root_hash {
                result matches Ok(found) && no_changes(found)
            } else {
                is_indexed_diff(
                    *before,
                    self@.root_hash,
                    *after,
                    target@.root_hash,
                    None,
                    max_changes,
                    result,
                )
            },
    {
        self.diff_between(target, None, max_changes, before, after)
    }

    /// Compares two snapshots after an optional exclusive path. The path that a
    /// truncated difference names goes on with it.
    pub fn diff_after(
        &self,
        target: &FsSnapshot,
        cursor: Option<&[u8]>,
        max_changes: usize,
        before: &IndexEvidence,
        after: &IndexEvidence,
    ) -> (result: Result<SnapshotDiff, SnapshotError>)
        ensures
            if self@.destroyed || target@.destroyed {
                result == Err::<SnapshotDiff, SnapshotError>(SnapshotError::AlreadyDestroyed)
            } else if cursor_of(cursor) is None {
                result == Err::<SnapshotDiff, SnapshotError>(
                    SnapshotError::InvalidPath(PathFault::NotRelative),
                )
            } else if self@.root_hash == target@.root_hash {
                result matches Ok(found) && no_changes(found)
            } else {
                exists|place: Option<RelPath>|
                    diff::path_view(place) == cursor_of(cursor)->0 && #[trigger] is_indexed_diff(
                        *before,
                        self@.root_hash,
                        *after,
                        target@.root_hash,
                        place,
                        max_changes,
                        result,
                    )
            },
    {
        if self.ensure_live().is_err() || target.ensure_live().is_err() {
            return Err(SnapshotError::AlreadyDestroyed);
        }
        let place = match cursor {
            None => None,
            Some(written) => match RelPath::parse(written) {
                Some(relative) => Some(relative),
                None => {
                    return Err(SnapshotError::InvalidPath(PathFault::NotRelative));
                },
            },
        };
        let ghost here = place;
        let result = self.diff_between(target, place, max_changes, before, after);
        proof {
            assert(diff::path_view(here) == cursor_of(cursor)->0);
        }
        result
    }

    fn diff_between(
        &self,
        target: &FsSnapshot,
        cursor: Option<RelPath>,
        max_changes: usize,
        before: &IndexEvidence,
        after: &IndexEvidence,
    ) -> (result: Result<SnapshotDiff, SnapshotError>)
        ensures
            if self@.destroyed || target@.destroyed {
                result == Err::<SnapshotDiff, SnapshotError>(SnapshotError::AlreadyDestroyed)
            } else if self@.root_hash == target@.root_hash {
                result matches Ok(found) && no_changes(found)
            } else {
                is_indexed_diff(
                    *before,
                    self@.root_hash,
                    *after,
                    target@.root_hash,
                    cursor,
                    max_changes,
                    result,
                )
            },
    {
        if self.ensure_live().is_err() || target.ensure_live().is_err() {
            return Err(SnapshotError::AlreadyDestroyed);
        }
        let left_hash = self.root_hash();
        let right_hash = target.root_hash();
        if path::bytes_equal(left_hash.as_slice(), right_hash.as_slice()) {
            return Ok(SnapshotDiff { changes: Vec::new(), changed_paths: 0, truncated: false, next_path: None });
        }
        let left = read_index(before.is_plain_file, &before.bytes, &left_hash);
        let ghost base_read = left;
        assert(lifecycle::is_index_read(
            before.is_plain_file,
            lifecycle::optional_bytes(before.bytes),
            self@.root_hash,
            base_read,
        ));
        let base = match left {
            Ok(base) => base,
            Err(error) => {
                return Err(error);
            },
        };
        let right = read_index(after.is_plain_file, &after.bytes, &right_hash);
        let ghost target_read = right;
        assert(lifecycle::is_index_read(
            after.is_plain_file,
            lifecycle::optional_bytes(after.bytes),
            target@.root_hash,
            target_read,
        ));
        match right {
            Ok(other) => {
                let result = diff_indexes(&base, &other, &cursor, max_changes);
                assert(is_target_diff(base, *after, target@.root_hash, cursor, max_changes, result));
                result
            },
            Err(error) => {
                let result: Result<SnapshotDiff, SnapshotError> = Err(error);
                assert(is_target_diff(base, *after, target@.root_hash, cursor, max_changes, result));
                result
            },
        }
    }

    /// Prepares deriving a new snapshot by an ordered batch of mutations.
    pub fn derive(
        &self,
        mutations: &Vec<SnapshotMutation>,
        payloads: &Vec<Payload>,
        limits: SnapshotMutationLimits,
    ) -> (result: Result<Vec<PreparedMutation>, SnapshotError>)
        requires
            mutations@.len() == payloads@.len(),
        ensures
            if self@.destroyed {
                result == Err::<Vec<PreparedMutation>, SnapshotError>(SnapshotError::AlreadyDestroyed)
            } else {
                mutation::is_batch(mutations@, payloads@, limits, result)
            },
    {
        if self.ensure_live().is_err() {
            return Err(SnapshotError::AlreadyDestroyed);
        }
        prepare_mutations(mutations, payloads, limits)
    }
}

/// The page of a directory whose names were read.
fn page_of(at: &RelPath, names: &Vec<RelPath>, offset: usize, max_entries: usize) -> (result: Result<
    ListPage,
    SnapshotError,
>)
    requires
        offset + max_entries <= usize::MAX,
    ensures
        match listing_fault(at@, path::path_views(names@), names@.len()) {
            Some(fault) => result == Err::<ListPage, SnapshotError>(SnapshotError::LimitExceeded(fault)),
            None => result matches Ok(page) && is_list_page(
                page,
                at@,
                path::path_views(names@),
                offset,
                max_entries,
            ),
        },
{
    let ghost views = path::path_views(names@);
    let mut children: Vec<RelPath> = Vec::new();
    let mut path_bytes: usize = 0;
    let mut i: usize = 0;
    proof {
        assert(views.take(0) =~= Seq::<Names>::empty());
    }
    while i < names.len()
        invariant
            i <= names@.len(),
            views == path::path_views(names@),
            path_bytes == listed_bytes(at@, views.take(i as int)),
            path_bytes <= DEFAULT_SCAN_PATH_BYTE_BUDGET,
            listing_fault(at@, views, i as nat) is None,
            children@.len() == i,
            forall|j: int| 0 <= j < i ==> (#[trigger] children@[j])@ == at@ + views[j],
        decreases names@.len() - i,
    {
        proof {
            assert(views.take(i as int + 1).drop_last() =~= views.take(i as int));
            assert(views.take(i as int + 1).last() == names@[i as int]@);
        }
        if i >= DEFAULT_SCAN_ENTRY_BUDGET {
            proof {
                lemma_listing_fault_stays(at@, views, (i + 1) as nat, names@.len());
            }
            return Err(
                SnapshotError::LimitExceeded(LimitFault::Entries { limit: DEFAULT_SCAN_ENTRY_BUDGET }),
            );
        }
        let child = at.join(&names[i]);
        let length: usize = child.to_bytes().len();
        if length > DEFAULT_SCAN_PATH_BYTE_BUDGET - path_bytes {
            proof {
                lemma_listing_fault_stays(at@, views, (i + 1) as nat, names@.len());
            }
            return Err(
                SnapshotError::LimitExceeded(
                    LimitFault::PathBytes { limit: DEFAULT_SCAN_PATH_BYTE_BUDGET },
                ),
            );
        }
        path_bytes = path_bytes + length;
        children.push(child);
        i = i + 1;
    }
    let total_entries: usize = children.len();
    proof {
        assert(path::path_views(children@) =~= child_paths(at@, views));
    }
    let sorted = sort_paths(children);
    let ghost order = path::path_views(sorted@);
    let mut paths: Vec<RelPath> = Vec::new();
    let mut k: usize = offset;
    while k < sorted.len() && k < offset + max_entries
        invariant
            offset + max_entries <= usize::MAX,
            offset <= k <= offset + max_entries,
            order == path::path_views(sorted@),
            offset <= order.len() ==> k <= order.len(),
            offset > order.len() ==> k == offset,
            paths@.len() == k - offset,
            forall|j: int| 0 <= j < paths@.len() ==> (#[trigger] paths@[j])@ == order[offset + j],
        decreases sorted@.len() - k,
    {
        paths.push(sorted[k].copy());
        k = k + 1;
    }
    proof {
        if offset >= order.len() {
            assert(path::path_views(paths@) =~= Seq::<Names>::empty());
        } else if offset + max_entries >= order.len() {
            assert(path::path_views(paths@) =~= order.skip(offset as int));
        } else {
            assert(path::path_views(paths@) =~= order.subrange(offset as int, offset + max_entries));
        }
        assert(paths_sorted(order));
    }
    Ok(ListPage { paths, offset, total_entries })
}

impl SnapshotDelta {
    /// The complete summary of the delta.
    pub fn summary(&self) -> (summary: SnapshotDeltaSummary)
        ensures
            summary == self.summary,
    {
        self.summary
    }

    /// The changes of the delta.
    pub fn changes(&self) -> (changes: Vec<SnapshotChange>)
        ensures
            changes@.len() == self.entries@.len(),
            forall|i: int| 0 <= i < changes@.len() ==> {
                &&& (#[trigger] changes@[i]).path@ == self.entries@[i].change.path@
                &&& changes@[i].kind == self.entries@[i].change.kind
            },
    {
        let mut changes: Vec<SnapshotChange> = Vec::new();
        let mut i: usize = 0;
        while i < self.entries.len()
            invariant
                i <= self.entries@.len(),
                changes@.len() == i,
                forall|j: int| 0 <= j < i ==> {
                    &&& (#[trigger] changes@[j]).path@ == self.entries@[j].change.path@
                    &&& changes@[j].kind == self.entries@[j].change.kind
                },
            decreases self.entries@.len() - i,
        {
            let change = &self.entries[i].change;
            changes.push(SnapshotChange { path: change.path.copy(), kind: change.kind });
            i = i + 1;
        }
        changes
    }
}

/// Only what lies in the tree of a snapshot is looked at: a place that leads elsewhere is
/// refused, and so is one that cannot be followed.
pub proof fn law_snapshots_show_only_their_tree(tree_dir: Seq<u8>, at: Names, seen: EntryEvidence, listed: DirectoryEvidence)
    ensures
        ({
            let is_in = |canonical: Option<Vec<u8>>| canonical matches Some(found) && {
                let way = path::parts(found@);
                let root = path::parts(tree_dir);
                way.len() >= root.len() && way.take(root.len() as int) == root
            };
            &&& entry_fault(tree_dir, at, seen) is None ==> is_in(seen.canonical_parent)
            &&& read_fault(tree_dir, seen) is None <==> is_in(seen.canonical_parent) && (seen.metadata matches Some(found)
                && found.is_file)
            &&& list_fault(tree_dir, at, 0, 0, listed) is None ==> is_in(listed.canonical) && listed.is_directory == Some(
                true,
            )
        }),
{
}

/// An entry is told as it is: a file, a directory or a link, with the length of what is
/// there; a directory with the mode that the snapshot keeps for it, everything else with
/// its permissions; and a link, and nothing else, with what it leads to.
pub proof fn law_entries_are_told_as_they_are(tree_dir: Seq<u8>, at: Names, seen: EntryEvidence)
    requires
        entry_fault(tree_dir, at, seen) is None,
    ensures
        ({
            let found = seen.metadata->0;
            let told = entry_told(at, seen);
            let kept = match seen.modes {
                KeptModes::Held(held) => held@,
                _ => Map::empty(),
            };
            &&& seen.metadata is Some
            &&& told.path == at
            &&& told.len == found.len
            &&& told.kind is File <==> found.is_file
            &&& told.kind is Directory <==> !found.is_file && found.is_directory
            &&& told.kind is Symlink <==> !found.is_file && !found.is_directory && found.is_symlink
            &&& told.mode == if told.kind is Directory && kept.dom().contains(at) {
                kept[at]
            } else {
                found.mode & 0o7777
            }
            &&& told.kind is Symlink ==> (seen.symlink_target matches Some(target) && told.symlink_target == Some(target@))
            &&& !(told.kind is Symlink) ==> told.symlink_target is None
        }),
{
}

/// A page of a listing holds entries of the directory alone, in order, no more than was
/// asked for, and as many as are left behind its start.
pub proof fn law_list_pages_are_in_order(page: ListPage, at: Names, names: Seq<Names>, offset: usize, max_entries: usize)
    requires
        is_list_page(page, at, names, offset, max_entries),
    ensures
        ({
            let shown = path::path_views(page.paths@);
            &&& shown.len() <= max_entries
            &&& shown.len() == if offset >= names.len() {
                0int
            } else if names.len() - offset <= max_entries {
                names.len() - offset
            } else {
                max_entries as int
            }
            &&& page.total_entries == names.len()
            &&& forall|i: int, j: int|
                0 <= i < j < shown.len() ==> !path::path_before(#[trigger] shown[j], #[trigger] shown[i])
            &&& forall|i: int|
                0 <= i < shown.len() ==> (#[trigger] shown[i]).len() >= at.len() && shown[i].take(at.len() as int) == at
                    && names.contains(shown[i].skip(at.len() as int))
        }),
{
    let shown = path::path_views(page.paths@);
    let sorted = choose|sorted: Seq<Names>|
        #![trigger paths_sorted(sorted)]
        paths_sorted(sorted) && sorted.to_multiset() == child_paths(at, names).to_multiset() && sorted.len()
            == names.len() && shown == (if offset >= sorted.len() {
            Seq::<Names>::empty()
        } else if offset + max_entries >= sorted.len() {
            sorted.skip(offset as int)
        } else {
            sorted.subrange(offset as int, offset + max_entries)
        });
    let all = child_paths(at, names);
    assert forall|i: int| 0 <= i < shown.len() implies (#[trigger] shown[i]).len() >= at.len() && shown[i].take(
        at.len() as int,
    ) == at && names.contains(shown[i].skip(at.len() as int)) by {
        assert(shown[i] == sorted[offset + i]);
        assert(sorted.contains(sorted[offset + i]));
        vstd::seq_lib::to_multiset_contains(sorted, shown[i]);
        vstd::seq_lib::to_multiset_contains(all, shown[i]);
        let k = choose|k: int| 0 <= k < all.len() && all[k] == shown[i];
        assert(shown[i].take(at.len() as int) =~= at);
        assert(shown[i].skip(at.len() as int) =~= names[k]);
    }
    assert forall|i: int, j: int| 0 <= i < j < shown.len() implies !path::path_before(#[trigger] shown[j], #[trigger] shown[i]) by {
        assert(shown[i] == sorted[offset + i]);
        assert(shown[j] == sorted[offset + j]);
    }
}

/// A listing is refused where its page ends beyond what can be counted or listed, and no
/// cursor leads out of the tree.
pub proof fn law_pages_end_within_the_listing(
    tree_dir: Seq<u8>,
    at: Names,
    offset: usize,
    max_entries: usize,
    seen: DirectoryEvidence,
    written: &[u8],
)
    ensures
        list_fault(tree_dir, at, offset, max_entries, seen) is None ==> offset + max_entries <= 100_000 && seen.names is Some
            && seen.names->0@.len() <= 100_000,
        cursor_of(None) == Some(None::<Names>),
        cursor_of(Some(written)) == match path::relative_names(written@) {
            Some(names) => Some(Some(names)),
            None => None,
        },
{
    if list_fault(tree_dir, at, offset, max_entries, seen) is None {
        let names = path::path_views(seen.names->0@);
        assert(names.len() == seen.names->0@.len());
        if names.len() > 0 {
            assert(listing_fault(at, names, names.len()) is None);
        }
    }
}

/// Snapshots are compared by their indexes, which are read only from plain files with the
/// roots that they are known by.
pub proof fn law_compared_indexes_have_their_roots(
    before: IndexEvidence,
    before_hash: Seq<u8>,
    after: IndexEvidence,
    after_hash: Seq<u8>,
    cursor: Option<RelPath>,
    max_changes: usize,
    result: Result<SnapshotDiff, SnapshotError>,
)
    requires
        is_indexed_diff(before, before_hash, after, after_hash, cursor, max_changes, result),
    ensures
        result is Ok ==> before.is_plain_file && before.bytes is Some && after.is_plain_file && after.bytes is Some,
        result matches Ok(diff) ==> diff.changes@.len() <= max_changes,
{
    let left = choose|left: Result<SnapshotIndex, SnapshotError>| #[trigger]
        lifecycle::is_index_read(before.is_plain_file, lifecycle::optional_bytes(before.bytes), before_hash, left)
            && match left {
            Err(error) => result == Err::<SnapshotDiff, SnapshotError>(error),
            Ok(base) => is_target_diff(base, after, after_hash, cursor, max_changes, result),
        };
    if let Ok(base) = left {
        let right = choose|right: Result<SnapshotIndex, SnapshotError>| #[trigger]
            lifecycle::is_index_read(after.is_plain_file, lifecycle::optional_bytes(after.bytes), after_hash, right)
                && match right {
                Err(error) => result == Err::<SnapshotDiff, SnapshotError>(error),
                Ok(target) => diff::is_diff_of(base, target, cursor, max_changes, result),
            };
        if let Ok(target) = right {
            diff::law_pages_hold_changes(base, target, cursor, max_changes, result);
        }
    }
}

} // verus!
