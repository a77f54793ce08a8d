//! Durable immutable filesystem snapshots.

pub mod apply;
pub mod assembly;
pub mod capture;
pub mod compare;
pub mod comparing;
pub mod converging;
pub mod copying;
pub mod deeds;
pub mod delta;
pub mod diff;
pub mod forming;
pub mod handle;
pub mod index;
pub mod inspect;
pub mod inventory;
pub mod layering;
pub mod leases;
pub mod lifecycle;
pub mod mutation;
pub mod overlay;
pub mod reindexing;
pub mod stored;
pub mod telling;
pub mod validating;

use crate::path::{Names, RelPath};
use vstd::prelude::*;

verus! {

/// The most entries that one scan of a tree may see.
pub const DEFAULT_SCAN_ENTRY_BUDGET: usize = 100_000;

/// The most bytes of paths that one scan of a tree may see.
pub const DEFAULT_SCAN_PATH_BYTE_BUDGET: usize = 16_777_216;

/// The permission bits of a mode.
pub const PERMISSION_BITS: u32 = 0o7777;

/// Type of one entry in a snapshot tree.
#[derive(Clone, Copy, Debug, PartialEq, Eq, Structural)]
pub enum SnapshotEntryKind {
    File,
    Directory,
    Symlink,
}

/// Metadata for one snapshot-relative path.
pub struct SnapshotEntry {
    pub path: RelPath,
    pub kind: SnapshotEntryKind,
    pub mode: u32,
    pub len: u64,
    pub symlink_target: Option<Vec<u8>>,
}

/// What the metadata of a path says.
#[verifier::ext_equal]
pub struct EntryView {
    pub path: Names,
    pub kind: SnapshotEntryKind,
    pub mode: u32,
    pub len: u64,
    pub symlink_target: Option<Seq<u8>>,
}

impl View for SnapshotEntry {
    type V = EntryView;

    open spec fn view(&self) -> EntryView {
        EntryView {
            path: self.path@,
            kind: self.kind,
            mode: self.mode,
            len: self.len,
            symlink_target: inventory::bytes_of(self.symlink_target),
        }
    }
}

/// Bounded immediate-child directory listing.
pub struct SnapshotList {
    pub entries: Vec<SnapshotEntry>,
    pub total_entries: usize,
    pub next_offset: Option<usize>,
}

/// Structural difference between two immutable snapshots.
#[derive(Clone, Copy, Debug, PartialEq, Eq, Structural)]
pub enum SnapshotChangeKind {
    Added,
    Modified,
    Deleted,
    TypeChanged,
    ModeChanged,
    SymlinkTargetChanged,
}

} // verus!
