//! What each step of applying a delta does to the directory.

use crate::path::{copy_bytes, Names, RelPath};
use crate::snapshot::apply;
use crate::snapshot::apply::{ApplyPhase, ApplyStep};
use crate::snapshot::converging;
use crate::snapshot::delta::{DeltaView, SnapshotDelta};
use crate::snapshot::SnapshotEntryKind;
use vstd::prelude::*;

verus! {

/// What is done at a path.
#[derive(Debug)]
pub enum Deed {
    /// Remove the directory, which has to be empty.
    RemoveDirectory,
    /// Remove the file or the link.
    RemoveEntry,
    MakeDirectory,
    /// Put a copy of the file of the target there, with a mode.
    PutFile { mode: u32 },
    /// Put a symbolic link there.
    PutLink { target: Vec<u8> },
    SetMode { mode: u32 },
    /// There is nothing to do for the change in this phase, or the target of its link is
    /// not known.
    Refuse,
}

/// What is done at a path.
#[verifier::ext_equal]
pub enum DeedView {
    RemoveDirectory,
    RemoveEntry,
    MakeDirectory,
    PutFile { mode: u32 },
    PutLink { target: Seq<u8> },
    SetMode { mode: u32 },
    Refuse,
}

impl View for Deed {
    type V = DeedView;

    open spec fn view(&self) -> DeedView {
        match *self {
            Deed::RemoveDirectory => DeedView::RemoveDirectory,
            Deed::RemoveEntry => DeedView::RemoveEntry,
            Deed::MakeDirectory => DeedView::MakeDirectory,
            Deed::PutFile { mode } => DeedView::PutFile { mode },
            Deed::PutLink { target } => DeedView::PutLink { target: target@ },
            Deed::SetMode { mode } => DeedView::SetMode { mode },
            Deed::Refuse => DeedView::Refuse,
        }
    }
}

/// What a step does, and where. The parents of the path have to be plain directories
/// before anything is removed, made or put.
pub struct StepAction {
    pub path: RelPath,
    pub checks_parents: bool,
    pub deed: Deed,
}

/// What a phase does for a change.
pub open spec fn deed_of(entry: DeltaView, phase: ApplyPhase) -> DeedView {
    match phase {
        ApplyPhase::Remove => match entry.before {
            None => DeedView::Refuse,
            Some(before) => if before.kind is Directory {
                DeedView::RemoveDirectory
            } else {
                DeedView::RemoveEntry
            },
        },
        ApplyPhase::MakeDirectory => DeedView::MakeDirectory,
        ApplyPhase::Put => match entry.after {
            None => DeedView::Refuse,
            Some(after) => match after.kind {
                SnapshotEntryKind::File => DeedView::PutFile { mode: after.mode },
                SnapshotEntryKind::Symlink => match after.symlink_target {
                    Some(target) => DeedView::PutLink { target },
                    None => DeedView::Refuse,
                },
                SnapshotEntryKind::Directory => DeedView::Refuse,
            },
        },
        ApplyPhase::SetMode => match entry.after {
            None => DeedView::Refuse,
            Some(after) => DeedView::SetMode { mode: after.mode },
        },
    }
}

impl SnapshotDelta {
    /// Tells what a step does.
    pub fn step_action(&self, step: &ApplyStep) -> (action: StepAction)
        requires
            step.entry < self.entries@.len(),
        ensures
            action.path@ == self.entries@[step.entry as int]@.path,
            action.checks_parents == !(step.phase is SetMode),
            action.deed@ == deed_of(self.entries@[step.entry as int]@, step.phase),
    {
        let entry = &self.entries[step.entry];
        let deed = match step.phase {
            ApplyPhase::Remove => match &entry.before {
                None => Deed::Refuse,
                Some(before) => if before.kind == SnapshotEntryKind::Directory {
                    Deed::RemoveDirectory
                } else {
                    Deed::RemoveEntry
                },
            },
            ApplyPhase::MakeDirectory => Deed::MakeDirectory,
            ApplyPhase::Put => match &entry.after {
                None => Deed::Refuse,
                Some(after) => match after.kind {
                    SnapshotEntryKind::File => Deed::PutFile { mode: after.mode },
                    SnapshotEntryKind::Symlink => match &after.symlink_target {
                        Some(target) => Deed::PutLink { target: copy_bytes(target.as_slice()) },
                        None => Deed::Refuse,
                    },
                    SnapshotEntryKind::Directory => Deed::Refuse,
                },
            },
            ApplyPhase::SetMode => match &entry.after {
                None => Deed::Refuse,
                Some(after) => Deed::SetMode { mode: after.mode },
            },
        };
        StepAction { path: entry.change.path.copy(), checks_parents: step.phase != ApplyPhase::SetMode, deed }
    }
}

/// What a deed makes of a tree. A new directory gets the mode that the system gives it,
/// and a new link that of the links of the target.
pub open spec fn done(
    tree: converging::Tree,
    at: Names,
    deed: DeedView,
    target: converging::Tree,
    new_mode: u32,
) -> converging::Tree {
    match deed {
        DeedView::RemoveDirectory | DeedView::RemoveEntry => tree.remove(at),
        DeedView::MakeDirectory => tree.insert(
            at,
            converging::Live { kind: SnapshotEntryKind::Directory, mode: new_mode, content: Seq::empty() },
        ),
        DeedView::PutFile { mode } => tree.insert(
            at,
            converging::Live { kind: SnapshotEntryKind::File, mode, content: target[at].content },
        ),
        DeedView::PutLink { target: link } => tree.insert(
            at,
            converging::Live { kind: SnapshotEntryKind::Symlink, mode: target[at].mode, content: link },
        ),
        DeedView::SetMode { mode } => tree.insert(at, converging::Live { mode, ..tree[at] }),
        DeedView::Refuse => tree,
    }
}

/// Every step that a delta wants does to the tree what the delta says: no step of a
/// change between two trees is refused, and what is done is what the step performs.
pub proof fn law_deeds_perform_steps(
    tree: converging::Tree,
    phase: ApplyPhase,
    entry: DeltaView,
    base: converging::Tree,
    target: converging::Tree,
    new_mode: u32,
)
    requires
        converging::change_fits(entry, base, target),
        apply::wanted(entry, phase),
        (entry.after matches Some(after) && after.kind is Symlink) ==> entry.after->0.symlink_target == Some(
            target[entry.path].content,
        ),
    ensures
        deed_of(entry, phase) != DeedView::Refuse,
        done(tree, entry.path, deed_of(entry, phase), target, new_mode) == converging::performed(
            tree,
            phase,
            entry,
            target,
            new_mode,
        ),
{
    let at = entry.path;
    match phase {
        ApplyPhase::Put => {
            assert(done(tree, at, deed_of(entry, phase), target, new_mode)[at] =~= target[at]);
        },
        _ => {},
    }
}

} // verus!
