//! Inventories: what a walk of a tree saw, within bounds.

use crate::error::{LimitFault, SnapshotError, Told};
use crate::path;
use crate::path::{bytes_equal, copy_bytes, Names, RelPath};
use crate::path_map;
use crate::path_map::{Duplicate, Entries, PathMap};
use crate::snapshot::{SnapshotEntryKind, PERMISSION_BITS};
use vstd::prelude::*;

verus! {

/// What identifies the state of one entry while a tree is copied.
pub struct EntryStamp {
    pub kind: SnapshotEntryKind,
    pub mode: u32,
    pub len: u64,
    pub dev: u64,
    pub ino: u64,
    pub mtime: i64,
    pub mtime_nsec: i64,
    pub ctime: i64,
    pub ctime_nsec: i64,
    pub symlink_target: Option<Vec<u8>>,
}

/// What a stamp stands for.
#[verifier::ext_equal]
pub struct Stamp {
    pub kind: SnapshotEntryKind,
    pub mode: u32,
    pub len: u64,
    pub dev: u64,
    pub ino: u64,
    pub mtime: i64,
    pub mtime_nsec: i64,
    pub ctime: i64,
    pub ctime_nsec: i64,
    pub symlink_target: Option<Seq<u8>>,
}

/// What an optional byte string holds.
pub open spec fn bytes_of(bytes: Option<Vec<u8>>) -> Option<Seq<u8>> {
    match bytes {
        Some(held) => Some(held@),
        None => None,
    }
}

impl View for EntryStamp {
    type V = Stamp;

    open spec fn view(&self) -> Stamp {
        Stamp {
            kind: self.kind,
            mode: self.mode,
            len: self.len,
            dev: self.dev,
            ino: self.ino,
            mtime: self.mtime,
            mtime_nsec: self.mtime_nsec,
            ctime: self.ctime,
            ctime_nsec: self.ctime_nsec,
            symlink_target: bytes_of(self.symlink_target),
        }
    }
}

/// The paths of an inventory with their stamps, in order.
pub type Stamps = Entries<Stamp>;

/// Whether two optional byte strings are the same.
pub fn same_bytes(a: &Option<Vec<u8>>, b: &Option<Vec<u8>>) -> (same: bool)
    ensures
        same == (bytes_of(*a) == bytes_of(*b)),
{
    match (a, b) {
        (Some(left), Some(right)) => bytes_equal(left.as_slice(), right.as_slice()),
        (None, None) => true,
        _ => false,
    }
}

/// The same optional byte string again.
pub fn copy_optional(bytes: &Option<Vec<u8>>) -> (copy: Option<Vec<u8>>)
    ensures
        bytes_of(copy) == bytes_of(*bytes),
{
    match bytes {
        Some(held) => Some(copy_bytes(held.as_slice())),
        None => None,
    }
}

impl Duplicate for EntryStamp {
    fn duplicate(&self) -> (result: Self) {
        let result = EntryStamp {
            kind: self.kind,
            mode: self.mode,
            len: self.len,
            dev: self.dev,
            ino: self.ino,
            mtime: self.mtime,
            mtime_nsec: self.mtime_nsec,
            ctime: self.ctime,
            ctime_nsec: self.ctime_nsec,
            symlink_target: copy_optional(&self.symlink_target),
        };
        proof {
            assert(result@ =~= self@);
        }
        result
    }
}

impl EntryStamp {
    /// Whether both stamps are the same.
    pub fn equals(&self, other: &EntryStamp) -> (equal: bool)
        ensures
            equal == (self@ == other@),
    {
        let equal = self.kind == other.kind && self.mode == other.mode && self.len == other.len && self.dev
            == other.dev && self.ino == other.ino && self.mtime == other.mtime && self.mtime_nsec
            == other.mtime_nsec && self.ctime == other.ctime && self.ctime_nsec == other.ctime_nsec
            && same_bytes(&self.symlink_target, &other.symlink_target);
        proof {
            if equal {
                assert(self@ =~= other@);
            }
        }
        equal
    }

    /// The stamp with the mode that the backend keeps for a directory.
    fn with_mode(&self, mode: u32) -> (stamp: EntryStamp)
        ensures
            stamp@ == (Stamp { mode, ..self@ }),
    {
        let mut stamp = self.duplicate();
        stamp.mode = mode;
        proof {
            assert(stamp@ =~= (Stamp { mode, ..self@ }));
        }
        stamp
    }
}

/// The kind of an entry; only files, directories and symbolic links have one.
pub open spec fn kind_from(is_file: bool, is_directory: bool, is_symlink: bool) -> Option<SnapshotEntryKind> {
    if is_file {
        Some(SnapshotEntryKind::File)
    } else if is_directory {
        Some(SnapshotEntryKind::Directory)
    } else if is_symlink {
        Some(SnapshotEntryKind::Symlink)
    } else {
        None
    }
}

/// The kind of an entry from what its metadata says; `path` tells the entry where it
/// has none.
pub fn entry_kind(path: &[u8], is_file: bool, is_directory: bool, is_symlink: bool) -> (result: Result<
    SnapshotEntryKind,
    SnapshotError,
>)
    ensures
        match kind_from(is_file, is_directory, is_symlink) {
            Some(kind) => result == Ok::<SnapshotEntryKind, SnapshotError>(kind),
            None => result matches Err(error) && error@ == (Told::UnsupportedFileType { path: path@ }),
        },
{
    if is_file {
        Ok(SnapshotEntryKind::File)
    } else if is_directory {
        Ok(SnapshotEntryKind::Directory)
    } else if is_symlink {
        Ok(SnapshotEntryKind::Symlink)
    } else {
        Err(SnapshotError::UnsupportedFileType { path: copy_bytes(path) })
    }
}

/// The permission bits of a raw mode.
pub fn permission_mode(raw: u32) -> (mode: u32)
    ensures
        mode == raw & PERMISSION_BITS,
        mode <= PERMISSION_BITS,
{
    proof {
        assert(raw & 0o7777u32 <= 0o7777u32) by (bit_vector);
    }
    raw & PERMISSION_BITS
}

/// The mode of an entry: the backend keeps those of directories.
pub open spec fn backend_mode(
    modes: Map<Names, u32>,
    path: Names,
    kind: SnapshotEntryKind,
    raw: u32,
) -> u32 {
    if kind is Directory && modes.dom().contains(path) {
        modes[path]
    } else {
        raw & PERMISSION_BITS
    }
}

/// The mode of an entry: for a directory the one that the backend keeps, where
/// it keeps one, else the permission bits of its metadata.
pub fn entry_mode(modes: &PathMap<u32>, path: &RelPath, kind: SnapshotEntryKind, raw: u32) -> (mode: u32)
    requires
        modes.wf(),
    ensures
        mode == backend_mode(modes@, path@, kind, raw),
{
    if kind == SnapshotEntryKind::Directory {
        match modes.get(path) {
            Some(mode) => *mode,
            None => permission_mode(raw),
        }
    } else {
        permission_mode(raw)
    }
}

/// One stamped entry of a walk.
pub struct StampedEntry {
    pub path: RelPath,
    pub stamp: EntryStamp,
}

/// What stamped entries stand for.
pub open spec fn stamped(walked: Seq<StampedEntry>) -> Stamps {
    Seq::new(walked.len(), |i: int| (walked[i].path@, walked[i].stamp@))
}

/// A directory's stamp with the mode that the backend keeps for it.
pub open spec fn with_backend_mode(modes: Map<Names, u32>, entry: (Names, Stamp)) -> Stamp {
    if entry.1.kind is Directory && modes.dom().contains(entry.0) {
        Stamp { mode: modes[entry.0], ..entry.1 }
    } else {
        entry.1
    }
}

/// The root's stamp with the mode that the backend keeps for it.
pub open spec fn root_with_mode(modes: Map<Names, u32>, root: Stamp) -> Stamp {
    if modes.dom().contains(Names::empty()) {
        Stamp { mode: modes[Names::empty()], ..root }
    } else {
        root
    }
}

/// The stamps of a root and of what a walk saw below it.
pub open spec fn stamp_map(modes: Map<Names, u32>, root: Stamp, walked: Stamps) -> Map<Names, Stamp>
    decreases walked.len(),
{
    if walked.len() == 0 {
        map![Names::empty() => root_with_mode(modes, root)]
    } else {
        stamp_map(modes, root, walked.drop_last()).insert(
            walked.last().0,
            with_backend_mode(modes, walked.last()),
        )
    }
}

/// The bytes that the paths of some entries take.
pub open spec fn stamp_path_bytes(walked: Stamps) -> int
    decreases walked.len(),
{
    if walked.len() == 0 {
        0
    } else {
        stamp_path_bytes(walked.drop_last()) + path::joined(walked.last().0).len()
    }
}

/// Which bound a walk passes at one of its entries; the root counts as one.
pub open spec fn scan_fault_at(
    walked: Stamps,
    i: int,
    max_entries: usize,
    max_path_bytes: usize,
) -> Option<LimitFault> {
    if i + 1 >= max_entries {
        Some(LimitFault::Entries { limit: max_entries })
    } else if stamp_path_bytes(walked.take(i + 1)) > max_path_bytes {
        Some(LimitFault::PathBytes { limit: max_path_bytes })
    } else {
        None
    }
}

/// Which bound the first entries of a walk pass first.
pub open spec fn scan_fault(
    walked: Stamps,
    count: nat,
    max_entries: usize,
    max_path_bytes: usize,
) -> Option<LimitFault>
    decreases count,
{
    if count == 0 {
        None
    } else {
        match scan_fault(walked, (count - 1) as nat, max_entries, max_path_bytes) {
            Some(fault) => Some(fault),
            None => scan_fault_at(walked, count - 1, max_entries, max_path_bytes),
        }
    }
}

proof fn lemma_scan_fault_stays(
    walked: Stamps,
    few: nat,
    many: nat,
    max_entries: usize,
    max_path_bytes: usize,
)
    requires
        few <= many,
        scan_fault(walked, few, max_entries, max_path_bytes) is Some,
    ensures
        scan_fault(walked, many, max_entries, max_path_bytes) == scan_fault(
            walked,
            few,
            max_entries,
            max_path_bytes,
        ),
    decreases many,
{
    if few < many {
        lemma_scan_fault_stays(walked, few, (many - 1) as nat, max_entries, max_path_bytes);
    }
}

/// The inventory of a root and of what a walk saw below it, within bounds.
pub fn inventory_bounded_with_modes(
    root: &EntryStamp,
    walked: &Vec<StampedEntry>,
    max_entries: usize,
    max_path_bytes: usize,
    modes: &PathMap<u32>,
) -> (result: Result<PathMap<EntryStamp>, SnapshotError>)
    requires
        modes.wf(),
    ensures
        match scan_fault(stamped(walked@), walked@.len(), max_entries, max_path_bytes) {
            Some(fault) => result == Err::<PathMap<EntryStamp>, SnapshotError>(
                SnapshotError::LimitExceeded(fault),
            ),
            None => result matches Ok(inventory) && inventory.wf() && inventory@ == stamp_map(
                modes@,
                root@,
                stamped(walked@),
            ),
        },
{
    let ghost seen = stamped(walked@);
    let mut inventory: PathMap<EntryStamp> = PathMap::new();
    let root_path = RelPath::root();
    let root_stamp = match modes.get(&root_path) {
        Some(mode) => root.with_mode(*mode),
        None => root.duplicate(),
    };
    inventory.insert(root_path, root_stamp);
    proof {
        assert(seen.take(0) =~= Stamps::empty());
        assert(inventory@ =~= stamp_map(modes@, root@, seen.take(0)));
    }
    let mut total: usize = 0;
    let mut i: usize = 0;
    while i < walked.len()
        invariant
            modes.wf(),
            i <= walked@.len(),
            seen == stamped(walked@),
            inventory.wf(),
            inventory@ == stamp_map(modes@, root@, seen.take(i as int)),
            total == stamp_path_bytes(seen.take(i as int)),
            scan_fault(seen, i as nat, max_entries, max_path_bytes) is None,
        decreases walked@.len() - i,
    {
        proof {
            assert(seen.take(i as int + 1).drop_last() =~= seen.take(i as int));
            assert(seen.take(i as int + 1).last() == (walked@[i as int].path@, walked@[i as int].stamp@));
            assert(scan_fault(seen, (i + 1) as nat, max_entries, max_path_bytes) == scan_fault_at(
                seen,
                i as int,
                max_entries,
                max_path_bytes,
            ));
            if scan_fault_at(seen, i as int, max_entries, max_path_bytes) is Some {
                lemma_scan_fault_stays(seen, (i + 1) as nat, seen.len(), max_entries, max_path_bytes);
            }
        }
        if max_entries == 0 || i >= max_entries - 1 {
            return Err(SnapshotError::LimitExceeded(LimitFault::Entries { limit: max_entries }));
        }
        let bytes = walked[i].path.to_bytes();
        match total.checked_add(bytes.len()) {
            Some(next) => {
                if next > max_path_bytes {
                    return Err(
                        SnapshotError::LimitExceeded(LimitFault::PathBytes { limit: max_path_bytes }),
                    );
                }
                total = next;
            },
            None => {
                return Err(SnapshotError::LimitExceeded(LimitFault::PathBytes { limit: max_path_bytes }));
            },
        }
        let found = modes.get(&walked[i].path);
        let stamp = if walked[i].stamp.kind == SnapshotEntryKind::Directory && found.is_some() {
            walked[i].stamp.with_mode(*found.unwrap())
        } else {
            walked[i].stamp.duplicate()
        };
        let key = walked[i].path.copy();
        inventory.insert(key, stamp);
        i = i + 1;
    }
    proof {
        assert(seen.take(i as int) =~= seen);
    }
    Ok(inventory)
}

/// Whether two inventories are the same.
pub fn inventories_equal(a: &PathMap<EntryStamp>, b: &PathMap<EntryStamp>) -> (equal: bool)
    requires
        a.wf(),
        b.wf(),
    ensures
        equal == (a@ == b@),
{
    let ghost left = a.entries();
    let ghost right = b.entries();
    proof {
        if a@ == b@ {
            path_map::lemma_map_lists_once(left, right);
        }
    }
    if a.len() != b.len() {
        return false;
    }
    let mut i: usize = 0;
    while i < a.len()
        invariant
            left == a.entries(),
            right == b.entries(),
            left.len() == right.len(),
            a@ == b@ ==> left == right,
            i <= left.len(),
            forall|j: int| 0 <= j < i ==> left[j] == right[j],
        decreases left.len() - i,
    {
        if !a.path_at(i).equals(b.path_at(i)) || !a.value_at(i).equals(b.value_at(i)) {
            return false;
        }
        i = i + 1;
    }
    proof {
        assert(left =~= right);
    }
    true
}

/// Checks that a source stayed as it was.
pub fn check_unchanged(before: &PathMap<EntryStamp>, after: &PathMap<EntryStamp>) -> (result: Result<
    (),
    SnapshotError,
>)
    requires
        before.wf(),
        after.wf(),
    ensures
        if before@ == after@ {
            result is Ok
        } else {
            result == Err::<(), SnapshotError>(SnapshotError::SourceChanged)
        },
{
    if inventories_equal(before, after) {
        Ok(())
    } else {
        Err(SnapshotError::SourceChanged)
    }
}

/// What is neither a file nor a directory nor a link has no kind; everything else has the
/// kind that it is.
pub proof fn law_kinds_are_what_they_are(is_file: bool, is_directory: bool, is_symlink: bool)
    ensures
        kind_from(is_file, is_directory, is_symlink) is None <==> !is_file && !is_directory && !is_symlink,
        is_file && !is_directory && !is_symlink ==> kind_from(is_file, is_directory, is_symlink) == Some(
            SnapshotEntryKind::File,
        ),
        !is_file && is_directory && !is_symlink ==> kind_from(is_file, is_directory, is_symlink) == Some(
            SnapshotEntryKind::Directory,
        ),
        !is_file && !is_directory && is_symlink ==> kind_from(is_file, is_directory, is_symlink) == Some(
            SnapshotEntryKind::Symlink,
        ),
{
}

/// A directory has the mode that is kept for it, and everything else the permission bits of
/// its own.
pub proof fn law_kept_modes_are_of_directories(modes: Map<Names, u32>, p: Names, kind: SnapshotEntryKind, raw: u32)
    ensures
        kind is Directory && modes.dom().contains(p) ==> backend_mode(modes, p, kind, raw) == modes[p],
        !(kind is Directory) || !modes.dom().contains(p) ==> backend_mode(modes, p, kind, raw) == raw & 0o7777,
{
}

proof fn lemma_stamp_map(modes: Map<Names, u32>, root: Stamp, walked: Stamps, p: Names)
    ensures
        stamp_map(modes, root, walked).dom().contains(p) <==> p == Names::empty() || exists|i: int|
            0 <= i < walked.len() && (#[trigger] walked[i]).0 == p,
        forall|i: int|
            0 <= i < walked.len() && (#[trigger] walked[i]).0 == p && (forall|j: int|
                i < j < walked.len() ==> (#[trigger] walked[j]).0 != p) ==> stamp_map(modes, root, walked)[p]
                == with_backend_mode(modes, walked[i]),
        (forall|i: int| 0 <= i < walked.len() ==> (#[trigger] walked[i]).0 != Names::empty()) ==> stamp_map(
            modes,
            root,
            walked,
        )[Names::empty()] == root_with_mode(modes, root),
    decreases walked.len(),
{
    if walked.len() > 0 {
        let rest = walked.drop_last();
        lemma_stamp_map(modes, root, rest, p);
        assert(walked[walked.len() - 1] == walked.last());
        assert(forall|i: int| 0 <= i < rest.len() ==> rest[i] == walked[i]);
        if exists|i: int| 0 <= i < rest.len() && (#[trigger] rest[i]).0 == p {
            let i = choose|i: int| 0 <= i < rest.len() && (#[trigger] rest[i]).0 == p;
            assert(walked[i].0 == p);
        }
        if walked.last().0 != p {
            assert forall|i: int|
                0 <= i < walked.len() && (#[trigger] walked[i]).0 == p && (forall|j: int|
                    i < j < walked.len() ==> (#[trigger] walked[j]).0 != p) implies stamp_map(modes, root, walked)[p]
                == with_backend_mode(modes, walked[i]) by {
                assert(rest[i].0 == p);
                assert forall|j: int| i < j < rest.len() implies (#[trigger] rest[j]).0 != p by {
                    assert(walked[j].0 != p);
                }
            }
        }
        if forall|i: int| 0 <= i < walked.len() ==> (#[trigger] walked[i]).0 != Names::empty() {
            assert forall|i: int| 0 <= i < rest.len() implies (#[trigger] rest[i]).0 != Names::empty() by {
                assert(walked[i].0 != Names::empty());
            }
        }
    }
}

/// An inventory holds the root and every entry that was walked, and nothing else, each as it
/// was seen but for the mode that is kept for a directory.
pub proof fn law_inventories_hold_what_was_walked(
    modes: Map<Names, u32>,
    root: Stamp,
    walked: Stamps,
    i: int,
    p: Names,
)
    requires
        0 <= i < walked.len(),
        forall|j: int, k: int| 0 <= j < k < walked.len() ==> (#[trigger] walked[j]).0 != (#[trigger] walked[k]).0,
        forall|j: int| 0 <= j < walked.len() ==> (#[trigger] walked[j]).0 != Names::empty(),
    ensures
        ({
            let held = stamp_map(modes, root, walked);
            let (at, seen) = walked[i];
            &&& held.dom().contains(p) <==> p == Names::empty() || exists|j: int|
                0 <= j < walked.len() && (#[trigger] walked[j]).0 == p
            &&& Stamp { mode: 0, ..held[at] } == Stamp { mode: 0, ..seen }
            &&& held[at].mode == if seen.kind is Directory && modes.dom().contains(at) {
                modes[at]
            } else {
                seen.mode
            }
            &&& Stamp { mode: 0, ..held[Names::empty()] } == Stamp { mode: 0, ..root }
            &&& held[Names::empty()].mode == if modes.dom().contains(Names::empty()) {
                modes[Names::empty()]
            } else {
                root.mode
            }
        }),
{
    lemma_stamp_map(modes, root, walked, p);
    lemma_stamp_map(modes, root, walked, walked[i].0);
}

proof fn lemma_scan_fault(walked: Stamps, count: nat, max_entries: usize, max_path_bytes: usize)
    requires
        count <= walked.len(),
    ensures
        scan_fault(walked, count, max_entries, max_path_bytes) is None <==> forall|i: int|
            0 <= i < count ==> scan_fault_at(walked, i, max_entries, max_path_bytes) is None,
    decreases count,
{
    if count > 0 {
        lemma_scan_fault(walked, (count - 1) as nat, max_entries, max_path_bytes);
    }
}

/// A scan is within its limits exactly where it saw fewer entries below the root than
/// allowed, with no more path bytes than allowed.
pub proof fn law_scans_are_bounded(walked: Stamps, max_entries: usize, max_path_bytes: usize)
    requires
        walked.len() > 0,
    ensures
        scan_fault(walked, walked.len(), max_entries, max_path_bytes) is None <==> walked.len() < max_entries && forall|i: int|
            0 < i <= walked.len() ==> stamp_path_bytes(#[trigger] walked.take(i)) <= max_path_bytes,
{
    lemma_scan_fault(walked, walked.len(), max_entries, max_path_bytes);
    if scan_fault(walked, walked.len(), max_entries, max_path_bytes) is None {
        assert(scan_fault_at(walked, walked.len() - 1, max_entries, max_path_bytes) is None);
        assert forall|i: int| 0 < i <= walked.len() implies stamp_path_bytes(#[trigger] walked.take(i))
            <= max_path_bytes by {
            assert(scan_fault_at(walked, i - 1, max_entries, max_path_bytes) is None);
        }
    } else {
        let i = choose|i: int| 0 <= i < walked.len() && scan_fault_at(walked, i, max_entries, max_path_bytes) is Some;
        assert(walked.take(i + 1) == walked.take(i + 1));
    }
}

} // verus!
