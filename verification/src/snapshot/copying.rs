//! Copies of trees: a copy with the modes of its directories set equals what was
//! copied.

use crate::error::{SnapshotError, Told};
use crate::path::{copy_bytes, Names};
use crate::path_map;
use crate::path_map::PathMap;
use crate::snapshot::capture;
use crate::snapshot::capture::copy_tree_modes;
use crate::snapshot::converging::{Live, Tree};
use crate::snapshot::inventory;
use crate::snapshot::inventory::{permission_mode, EntryStamp, Stamp, StampedEntry};
use crate::snapshot::{SnapshotEntryKind, PERMISSION_BITS};
use vstd::prelude::*;

verus! {

/// The mode of a directory of a copy until its own is set.
pub const PRIVATE_MODE: u32 = 0o700;

/// How an entry is copied.
pub enum CopyStep {
    MakeDirectory,
    CopyFile { mode: u32 },
    MakeLink { target: Vec<u8> },
}

/// What copying an entry comes to.
#[verifier::ext_equal]
pub enum CopyAct {
    MakeDirectory,
    CopyFile { mode: u32 },
    MakeLink { target: Seq<u8> },
}

impl View for CopyStep {
    type V = CopyAct;

    open spec fn view(&self) -> CopyAct {
        match *self {
            CopyStep::MakeDirectory => CopyAct::MakeDirectory,
            CopyStep::CopyFile { mode } => CopyAct::CopyFile { mode },
            CopyStep::MakeLink { target } => CopyAct::MakeLink { target: target@ },
        }
    }
}

/// How an entry is copied: a directory stays open to its owner, a file keeps its
/// permissions, a link its target.
pub open spec fn copy_act(stamp: Stamp) -> CopyAct {
    match stamp.kind {
        SnapshotEntryKind::Directory => CopyAct::MakeDirectory,
        SnapshotEntryKind::File => CopyAct::CopyFile { mode: stamp.mode & PERMISSION_BITS },
        SnapshotEntryKind::Symlink => CopyAct::MakeLink {
            target: match stamp.symlink_target {
                Some(target) => target,
                None => Seq::empty(),
            },
        },
    }
}

fn copy_step(stamp: &EntryStamp) -> (step: CopyStep)
    ensures
        step@ == copy_act(stamp@),
{
    match stamp.kind {
        SnapshotEntryKind::Directory => CopyStep::MakeDirectory,
        SnapshotEntryKind::File => CopyStep::CopyFile { mode: permission_mode(stamp.mode) },
        SnapshotEntryKind::Symlink => match &stamp.symlink_target {
            Some(target) => CopyStep::MakeLink { target: copy_bytes(target.as_slice()) },
            None => {
                let target: Vec<u8> = Vec::new();
                proof {
                    assert(target@ =~= Seq::<u8>::empty());
                }
                CopyStep::MakeLink { target }
            },
        },
    }
}

/// How a tree is copied.
pub struct TreeCopy {
    /// One step for each entry below the root, in the order of the walk.
    pub steps: Vec<CopyStep>,
    /// The modes of the directories, which are set in the end.
    pub modes: PathMap<u32>,
}

/// Plans the copy of a tree, which has to be a directory; `kept` holds the modes
/// that its backend keeps for its directories.
pub fn copy_tree_with_modes(kept: &PathMap<u32>, root: &EntryStamp, walked: &Vec<StampedEntry>) -> (result: Result<
    TreeCopy,
    SnapshotError,
>)
    requires
        kept.wf(),
    ensures
        match result {
            Ok(copy) => {
                &&& root.kind is Directory
                &&& copy.steps@.len() == walked@.len()
                &&& forall|i: int|
                    0 <= i < walked@.len() ==> (#[trigger] copy.steps@[i])@ == copy_act(walked@[i].stamp@)
                &&& copy.modes.wf()
                &&& copy.modes@ == capture::copied_modes(kept@, root.mode, inventory::stamped(walked@))
            },
            Err(error) => root.kind !is Directory && error@ == (Told::UnsupportedFileType { path: Seq::empty() }),
        },
{
    if root.kind != SnapshotEntryKind::Directory {
        let path: Vec<u8> = Vec::new();
        proof {
            assert(path@ =~= Seq::<u8>::empty());
        }
        return Err(SnapshotError::UnsupportedFileType { path });
    }
    let mut steps: Vec<CopyStep> = Vec::new();
    let mut i: usize = 0;
    while i < walked.len()
        invariant
            i <= walked@.len(),
            steps@.len() == i,
            forall|j: int| 0 <= j < i ==> (#[trigger] steps@[j])@ == copy_act(walked@[j].stamp@),
        decreases walked@.len() - i,
    {
        steps.push(copy_step(&walked[i].stamp));
        i = i + 1;
    }
    Ok(TreeCopy { steps, modes: copy_tree_modes(kept, root.mode, walked) })
}

/// What a step leaves of an entry; links get the mode that the system gives them.
pub open spec fn copy_of(act: CopyAct, source: Live, link_mode: u32) -> Live {
    match act {
        CopyAct::MakeDirectory => Live {
            kind: SnapshotEntryKind::Directory,
            mode: PRIVATE_MODE,
            content: Seq::empty(),
        },
        CopyAct::CopyFile { mode } => Live { kind: SnapshotEntryKind::File, mode, content: source.content },
        CopyAct::MakeLink { target } => Live { kind: SnapshotEntryKind::Symlink, mode: link_mode, content: target },
    }
}

/// A copy before the modes of its directories are set.
pub open spec fn copied(source: Tree, walked: Seq<(Names, Stamp)>, link_mode: u32) -> Tree
    decreases walked.len(),
{
    if walked.len() == 0 {
        map![Names::empty() => Live { kind: SnapshotEntryKind::Directory, mode: PRIVATE_MODE, content: Seq::empty() }]
    } else {
        let (at, stamp) = walked.last();
        copied(source, walked.drop_last(), link_mode).insert(at, copy_of(copy_act(stamp), source[at], link_mode))
    }
}

/// A tree once some directories got their modes, in order.
pub open spec fn with_modes_set(tree: Tree, order: path_map::Entries<u32>) -> Tree
    decreases order.len(),
{
    if order.len() == 0 {
        tree
    } else {
        let before = with_modes_set(tree, order.drop_last());
        let (at, mode) = order.last();
        before.insert(at, Live { mode, ..before[at] })
    }
}

/// Whether a stamp tells what stands at a path.
pub open spec fn tells(stamp: Stamp, live: Live) -> bool {
    &&& stamp.kind == live.kind
    &&& stamp.mode & PERMISSION_BITS == live.mode
    &&& live.kind is Directory ==> live.content == Seq::<u8>::empty()
    &&& live.kind is Symlink ==> stamp.symlink_target == Some(live.content)
}

/// Whether a walk saw a whole tree.
pub open spec fn is_walk(tree: Tree, root_mode: u32, walked: Seq<(Names, Stamp)>) -> bool {
    &&& tree.dom().contains(Names::empty())
    &&& tree[Names::empty()] == (Live {
        kind: SnapshotEntryKind::Directory,
        mode: root_mode & PERMISSION_BITS,
        content: Seq::empty(),
    })
    &&& sees_only(tree, walked)
    &&& forall|at: Names|
        #[trigger] tree.dom().contains(at) && at != Names::empty() ==> path_map::has_path(walked, at)
}

/// Whether all that a walk saw stands in a tree, below its root.
pub open spec fn sees_only(tree: Tree, walked: Seq<(Names, Stamp)>) -> bool {
    forall|i: int|
        0 <= i < walked.len() ==> (#[trigger] walked[i]).0 != Names::empty() && tree.dom().contains(walked[i].0)
            && tells(walked[i].1, tree[walked[i].0])
}

/// Whether all links have the mode that the system gives them.
pub open spec fn links_have(tree: Tree, link_mode: u32) -> bool {
    forall|at: Names| #[trigger] tree.dom().contains(at) && tree[at].kind is Symlink ==> tree[at].mode == link_mode
}

/// What a tree holds whose backend keeps modes of directories.
pub open spec fn shown(tree: Tree, kept: Map<Names, u32>) -> Tree {
    Map::new(
        |at: Names| tree.dom().contains(at),
        |at: Names|
            Live { mode: inventory::backend_mode(kept, at, tree[at].kind, tree[at].mode), ..tree[at] },
    )
}

/// What a copy has of an entry before modes are set.
pub open spec fn opened(live: Live) -> Live {
    if live.kind is Directory {
        Live { mode: PRIVATE_MODE, ..live }
    } else {
        live
    }
}

pub proof fn lemma_masked_once(mode: u32)
    ensures
        (mode & PERMISSION_BITS) & PERMISSION_BITS == mode & PERMISSION_BITS,
{
    assert((mode & 0o7777u32) & 0o7777u32 == mode & 0o7777u32) by (bit_vector);
}

pub proof fn lemma_copied(source: Tree, walked: Seq<(Names, Stamp)>, link_mode: u32)
    requires
        sees_only(source, walked),
        links_have(source, link_mode),
    ensures
        forall|at: Names|
            #[trigger] copied(source, walked, link_mode).dom().contains(at) <==> (at == Names::empty()
                || path_map::has_path(walked, at)),
        copied(source, walked, link_mode)[Names::empty()] == (Live {
            kind: SnapshotEntryKind::Directory,
            mode: PRIVATE_MODE,
            content: Seq::empty(),
        }),
        forall|i: int|
            0 <= i < walked.len() ==> copied(source, walked, link_mode)[(#[trigger] walked[i]).0] == opened(
                source[walked[i].0],
            ),
    decreases walked.len(),
{
    if walked.len() > 0 {
        let before = walked.drop_last();
        let (at, stamp) = walked.last();
        let last = walked.len() - 1;
        assert(walked[last] == (at, stamp));
        assert forall|i: int| 0 <= i < before.len() implies (#[trigger] before[i]).0 != Names::empty()
            && source.dom().contains(before[i].0) && tells(before[i].1, source[before[i].0]) by {
            assert(before[i] == walked[i]);
        }
        lemma_copied(source, before, link_mode);
        assert(copy_of(copy_act(stamp), source[at], link_mode) =~= opened(source[at]));
        assert forall|p: Names| path_map::has_path(walked, p) <==> (p == at || path_map::has_path(before, p)) by {
            if path_map::has_path(walked, p) && p != at {
                let i = path_map::place_of(walked, p);
                assert(before[i].0 == p);
            }
            if path_map::has_path(before, p) {
                let i = path_map::place_of(before, p);
                assert(walked[i].0 == p);
            }
        }
        assert forall|i: int| 0 <= i < walked.len() implies copied(source, walked, link_mode)[(
        #[trigger] walked[i]).0] == opened(source[walked[i].0]) by {
            if i < last {
                assert(before[i] == walked[i]);
            }
        }
    }
}

pub proof fn lemma_copied_modes(source: Tree, kept: Map<Names, u32>, root: u32, walked: Seq<(Names, Stamp)>)
    requires
        sees_only(source, walked),
    ensures
        forall|at: Names|
            #[trigger] capture::copied_modes(kept, root, walked).dom().contains(at) <==> (at == Names::empty()
                || path_map::has_path(walked, at) && source[at].kind is Directory),
        capture::copied_modes(kept, root, walked)[Names::empty()] == inventory::backend_mode(
            kept,
            Names::empty(),
            SnapshotEntryKind::Directory,
            root,
        ),
        forall|i: int|
            0 <= i < walked.len() && (#[trigger] walked[i]).1.kind is Directory ==> capture::copied_modes(
                kept,
                root,
                walked,
            )[walked[i].0] == inventory::backend_mode(
                kept,
                walked[i].0,
                SnapshotEntryKind::Directory,
                source[walked[i].0].mode,
            ),
    decreases walked.len(),
{
    if walked.len() > 0 {
        let before = walked.drop_last();
        let (at, stamp) = walked.last();
        let last = walked.len() - 1;
        assert(walked[last] == (at, stamp));
        assert forall|i: int| 0 <= i < before.len() implies (#[trigger] before[i]).0 != Names::empty()
            && source.dom().contains(before[i].0) && tells(before[i].1, source[before[i].0]) by {
            assert(before[i] == walked[i]);
        }
        lemma_copied_modes(source, kept, root, before);
        lemma_masked_once(stamp.mode);
        assert forall|p: Names| path_map::has_path(walked, p) <==> (p == at || path_map::has_path(before, p)) by {
            if path_map::has_path(walked, p) && p != at {
                let i = path_map::place_of(walked, p);
                assert(before[i].0 == p);
            }
            if path_map::has_path(before, p) {
                let i = path_map::place_of(before, p);
                assert(walked[i].0 == p);
            }
        }
        assert forall|i: int|
            0 <= i < walked.len() && (#[trigger] walked[i]).1.kind is Directory implies capture::copied_modes(
            kept,
            root,
            walked,
        )[walked[i].0] == inventory::backend_mode(
            kept,
            walked[i].0,
            SnapshotEntryKind::Directory,
            source[walked[i].0].mode,
        ) by {
            if i < last {
                assert(before[i] == walked[i]);
            }
        }
    }
}

proof fn lemma_modes_set(tree: Tree, order: path_map::Entries<u32>)
    requires
        forall|i: int| 0 <= i < order.len() ==> tree.dom().contains((#[trigger] order[i]).0),
        forall|i: int, j: int| 0 <= i < j < order.len() ==> (#[trigger] order[i]).0 != (#[trigger] order[j]).0,
    ensures
        with_modes_set(tree, order).dom() == tree.dom(),
        forall|at: Names|
            !path_map::has_path(order, at) ==> #[trigger] with_modes_set(tree, order)[at] == tree[at],
        forall|i: int|
            0 <= i < order.len() ==> with_modes_set(tree, order)[(#[trigger] order[i]).0] == (Live {
                mode: order[i].1,
                ..tree[order[i].0]
            }),
    decreases order.len(),
{
    if order.len() > 0 {
        let before = order.drop_last();
        let last = order.len() - 1;
        assert forall|i: int| 0 <= i < before.len() implies tree.dom().contains((#[trigger] before[i]).0) by {
            assert(before[i] == order[i]);
        }
        assert forall|i: int, j: int| 0 <= i < j < before.len() implies (#[trigger] before[i]).0 != (
        #[trigger] before[j]).0 by {
            assert(before[i] == order[i] && before[j] == order[j]);
        }
        lemma_modes_set(tree, before);
        assert(tree.dom().contains(order[last].0));
        assert(with_modes_set(tree, order).dom() =~= tree.dom());
        assert(!path_map::has_path(before, order[last].0)) by {
            if path_map::has_path(before, order[last].0) {
                let i = path_map::place_of(before, order[last].0);
                assert(before[i] == order[i]);
            }
        }
        assert forall|at: Names| !path_map::has_path(order, at) implies #[trigger] with_modes_set(tree, order)[at]
            == tree[at] by {
            assert(order[last].0 != at);
            if path_map::has_path(before, at) {
                let i = path_map::place_of(before, at);
                assert(order[i].0 == at);
            }
        }
        assert forall|i: int| 0 <= i < order.len() implies with_modes_set(tree, order)[(#[trigger] order[i]).0] == (
        Live { mode: order[i].1, ..tree[order[i].0] }) by {
            if i < last {
                assert(before[i] == order[i]);
            }
        }
    }
}

/// A copy equals what was copied: every entry with its kind, its content and its
/// permissions, and the directories with the modes that the backend keeps for them.
pub proof fn law_copies_equal_their_source(
    source: Tree,
    kept: Map<Names, u32>,
    root_mode: u32,
    walked: Seq<(Names, Stamp)>,
    modes: path_map::Entries<u32>,
    link_mode: u32,
)
    requires
        is_walk(source, root_mode, walked),
        links_have(source, link_mode),
        path_map::in_order(modes),
        path_map::entry_map(modes) == capture::copied_modes(kept, root_mode, walked),
    ensures
        with_modes_set(copied(source, walked, link_mode), capture::finalize_order(modes)) == shown(source, kept),
{
    let tree = copied(source, walked, link_mode);
    let order = capture::finalize_order(modes);
    let told = capture::copied_modes(kept, root_mode, walked);
    lemma_copied(source, walked, link_mode);
    lemma_copied_modes(source, kept, root_mode, walked);
    assert forall|i: int| 0 <= i < order.len() implies tree.dom().contains((#[trigger] order[i]).0) && told.dom().contains(
        order[i].0,
    ) && told[order[i].0] == order[i].1 by {
        path_map::lemma_entry_at(modes, modes.len() - 1 - i);
    }
    assert forall|i: int, j: int| 0 <= i < j < order.len() implies (#[trigger] order[i]).0 != (
    #[trigger] order[j]).0 by {
        if order[i].0 == order[j].0 {
            path_map::lemma_place_unique(modes, modes.len() - 1 - i, modes.len() - 1 - j);
        }
    }
    lemma_modes_set(tree, order);
    let made = with_modes_set(tree, order);
    let wanted = shown(source, kept);
    assert forall|at: Names| made.dom().contains(at) <==> wanted.dom().contains(at) by {
        if path_map::has_path(walked, at) {
            assert(walked[path_map::place_of(walked, at)].0 == at);
        }
    }
    assert forall|at: Names| #[trigger] made.dom().contains(at) implies made[at] == wanted[at] by {
        if told.dom().contains(at) {
            assert(path_map::has_path(modes, at));
            let i = path_map::place_of(modes, at);
            let j = modes.len() - 1 - i;
            assert(order[j].0 == at);
        } else {
            assert(!path_map::has_path(order, at)) by {
                if path_map::has_path(order, at) {
                    assert(told.dom().contains(order[path_map::place_of(order, at)].0));
                }
            }
        }
        if at != Names::empty() {
            let i = path_map::place_of(walked, at);
            assert(walked[i].0 == at);
            lemma_masked_once(walked[i].1.mode);
        } else {
            lemma_masked_once(root_mode);
        }
        assert(made[at] =~= wanted[at]);
    }
    assert(made =~= wanted);
}

/// What is materialized from a snapshot equals what was captured: copying a tree,
/// keeping the modes of its directories, and copying the copy with these modes gives
/// the tree back.
pub proof fn law_materialized_trees_equal_the_captured(
    source: Tree,
    kept: Map<Names, u32>,
    root_mode: u32,
    walked: Seq<(Names, Stamp)>,
    stored_mode: u32,
    stored_walk: Seq<(Names, Stamp)>,
    modes: path_map::Entries<u32>,
    link_mode: u32,
)
    requires
        is_walk(source, root_mode, walked),
        links_have(source, link_mode),
        is_walk(copied(source, walked, link_mode), stored_mode, stored_walk),
        path_map::in_order(modes),
        path_map::entry_map(modes) == capture::copied_modes(
            capture::copied_modes(kept, root_mode, walked),
            stored_mode,
            stored_walk,
        ),
    ensures
        with_modes_set(
            copied(copied(source, walked, link_mode), stored_walk, link_mode),
            capture::finalize_order(modes),
        ) == shown(source, kept),
        kept == Map::<Names, u32>::empty() ==> shown(source, kept) == source,
{
    let stored = copied(source, walked, link_mode);
    let told = capture::copied_modes(kept, root_mode, walked);
    lemma_copied(source, walked, link_mode);
    lemma_copied_modes(source, kept, root_mode, walked);
    assert(links_have(stored, link_mode)) by {
        assert forall|at: Names| #[trigger]
            stored.dom().contains(at) && stored[at].kind is Symlink implies stored[at].mode == link_mode by {
            let i = path_map::place_of(walked, at);
            assert(walked[i].0 == at);
        }
    }
    law_copies_equal_their_source(stored, told, stored_mode, stored_walk, modes, link_mode);
    let (made, wanted) = (shown(stored, told), shown(source, kept));
    assert forall|at: Names| made.dom().contains(at) <==> wanted.dom().contains(at) by {
        if path_map::has_path(walked, at) {
            assert(walked[path_map::place_of(walked, at)].0 == at);
        }
    }
    assert forall|at: Names| #[trigger] made.dom().contains(at) implies made[at] == wanted[at] by {
        if at != Names::empty() {
            let i = path_map::place_of(walked, at);
            assert(walked[i].0 == at);
            lemma_masked_once(walked[i].1.mode);
        } else {
            lemma_masked_once(root_mode);
        }
        assert(made[at] =~= wanted[at]);
    }
    assert(made =~= wanted);
    if kept == Map::<Names, u32>::empty() {
        assert forall|at: Names| #[trigger] source.dom().contains(at) implies wanted[at] == source[at] by {
            if at != Names::empty() {
                let i = path_map::place_of(walked, at);
                assert(walked[i].0 == at);
                lemma_masked_once(walked[i].1.mode);
            } else {
                lemma_masked_once(root_mode);
            }
            assert(wanted[at] =~= source[at]);
        }
        assert(wanted =~= source);
    }
}

/// Of a tree whose directories have modes that are kept apart, a directory is shown with
/// the mode that is kept for it, and everything else as it is, down to its permissions.
pub proof fn law_kept_modes_are_shown(tree: Tree, kept: Map<Names, u32>, at: Names)
    requires
        tree.dom().contains(at),
    ensures
        shown(tree, kept).dom() == tree.dom(),
        shown(tree, kept)[at].kind == tree[at].kind,
        shown(tree, kept)[at].content == tree[at].content,
        tree[at].kind is Directory && kept.dom().contains(at) ==> shown(tree, kept)[at].mode == kept[at],
        !(tree[at].kind is Directory && kept.dom().contains(at)) ==> shown(tree, kept)[at].mode == tree[at].mode & 0o7777,
{
    assert(shown(tree, kept).dom() =~= tree.dom());
}

/// What is copied is what was stamped: a directory, a file with its permissions, or a link
/// with its target.
pub proof fn law_copies_are_of_their_kind(stamp: Stamp)
    ensures
        copy_act(stamp) is MakeDirectory <==> stamp.kind is Directory,
        stamp.kind is File ==> copy_act(stamp) == (CopyAct::CopyFile { mode: stamp.mode & 0o7777 }),
        stamp.kind is Symlink && stamp.symlink_target is Some ==> copy_act(stamp) == (CopyAct::MakeLink {
            target: stamp.symlink_target->0,
        }),
{
}

} // verus!
