//! Making an index: from a whole tree, from some paths of it, or from a branch.

use crate::error::{LimitFault, PathFault, SnapshotError};
use crate::path;
use crate::path::{append_bytes, Names, RelPath};
use crate::path_map;
use crate::path_map::PathMap;
use crate::snapshot::index;
use crate::snapshot::index::{
    blake3_hash, checked_path_bytes, IndexNode, Nodes, SnapshotIndex, SnapshotIndexEntry,
};
use crate::snapshot::{
    SnapshotEntryKind, DEFAULT_SCAN_ENTRY_BUDGET, DEFAULT_SCAN_PATH_BYTE_BUDGET,
};
use vstd::prelude::*;
use vstd::string::StringSliceAdditionalSpecFns;

verus! {

/// The bytes `sandlock snapshot file` and a zero byte.
pub open spec fn file_domain() -> Seq<u8> {
    seq![
        0x73u8, 0x61, 0x6e, 0x64, 0x6c, 0x6f, 0x63, 0x6b, 0x20, 0x73, 0x6e, 0x61, 0x70, 0x73, 0x68,
        0x6f, 0x74, 0x20, 0x66, 0x69, 0x6c, 0x65, 0x00,
    ]
}

/// The bytes `sandlock snapshot symlink` and a zero byte.
pub open spec fn symlink_domain() -> Seq<u8> {
    seq![
        0x73u8, 0x61, 0x6e, 0x64, 0x6c, 0x6f, 0x63, 0x6b, 0x20, 0x73, 0x6e, 0x61, 0x70, 0x73, 0x68,
        0x6f, 0x74, 0x20, 0x73, 0x79, 0x6d, 0x6c, 0x69, 0x6e, 0x6b, 0x00,
    ]
}

/// The node of a regular file.
pub open spec fn file_node(mode: u32, len: u64, content: Seq<u8>) -> IndexNode {
    IndexNode {
        kind: SnapshotEntryKind::File,
        mode,
        len,
        hash: index::blake3_digest(file_domain() + content),
        subtree_entries: 1,
        content_bytes: len,
    }
}

/// The node of a symbolic link.
pub open spec fn symlink_node(mode: u32, target: Seq<u8>) -> IndexNode {
    IndexNode {
        kind: SnapshotEntryKind::Symlink,
        mode,
        len: 0,
        hash: index::blake3_digest(symlink_domain() + index::length_prefixed(target)),
        subtree_entries: 1,
        content_bytes: 0,
    }
}

/// The node of a regular file.
pub fn file_entry(mode: u32, len: u64, content: &[u8]) -> (entry: SnapshotIndexEntry)
    ensures
        entry@ == file_node(mode, len, content@),
{
    let mut image: Vec<u8> = vec![
        0x73u8, 0x61, 0x6e, 0x64, 0x6c, 0x6f, 0x63, 0x6b, 0x20, 0x73, 0x6e, 0x61, 0x70, 0x73, 0x68,
        0x6f, 0x74, 0x20, 0x66, 0x69, 0x6c, 0x65, 0x00,
    ];
    proof {
        assert(image@ =~= file_domain());
    }
    append_bytes(&mut image, content);
    let hash = blake3_hash(image.as_slice());
    SnapshotIndexEntry {
        kind: SnapshotEntryKind::File,
        mode,
        len,
        hash,
        subtree_entries: 1,
        content_bytes: len,
    }
}

/// The node of a symbolic link.
pub fn symlink_entry(mode: u32, target: &[u8]) -> (entry: SnapshotIndexEntry)
    ensures
        entry@ == symlink_node(mode, target@),
{
    let mut image: Vec<u8> = vec![
        0x73u8, 0x61, 0x6e, 0x64, 0x6c, 0x6f, 0x63, 0x6b, 0x20, 0x73, 0x6e, 0x61, 0x70, 0x73, 0x68,
        0x6f, 0x74, 0x20, 0x73, 0x79, 0x6d, 0x6c, 0x69, 0x6e, 0x6b, 0x00,
    ];
    proof {
        assert(image@ =~= symlink_domain());
    }
    index::append_length_prefixed(&mut image, target);
    let hash = blake3_hash(image.as_slice());
    SnapshotIndexEntry {
        kind: SnapshotEntryKind::Symlink,
        mode,
        len: 0,
        hash,
        subtree_entries: 1,
        content_bytes: 0,
    }
}

/// The node of a directory whose children are not yet known.
pub fn directory_entry(mode: u32) -> (entry: SnapshotIndexEntry)
    ensures
        entry.kind is Directory,
        entry.mode == mode,
        entry.len == 0,
        entry.subtree_entries == 1,
        entry.content_bytes == 0,
        forall|i: int| 0 <= i < 32 ==> entry.hash@[i] == 0,
{
    SnapshotIndexEntry {
        kind: SnapshotEntryKind::Directory,
        mode,
        len: 0,
        hash: [0u8; 32],
        subtree_entries: 1,
        content_bytes: 0,
    }
}

/// One entry that a walk of a tree found.
pub struct WalkedEntry {
    pub path: RelPath,
    pub entry: SnapshotIndexEntry,
}

/// What a walked entry stands for.
pub open spec fn walked_node(walked: WalkedEntry) -> (Names, IndexNode) {
    (walked.path@, walked.entry@)
}

/// What walked entries stand for.
pub open spec fn walked_nodes(walked: Seq<WalkedEntry>) -> Nodes {
    Seq::new(walked.len(), |i: int| walked_node(walked[i]))
}

/// A map with some entries put in, the later over the earlier.
pub open spec fn with_entries(map: Map<Names, IndexNode>, found: Nodes) -> Map<Names, IndexNode>
    decreases found.len(),
{
    if found.len() == 0 {
        map
    } else {
        with_entries(map, found.drop_last()).insert(found.last().0, found.last().1)
    }
}

/// A map without what lies at or below some roots.
pub open spec fn without_roots(map: Map<Names, IndexNode>, roots: Seq<Names>) -> Map<Names, IndexNode> {
    Map::new(
        |p: Names| map.dom().contains(p) && !under_any(p, roots),
        |p: Names| map[p],
    )
}

/// Whether a path lies at or below one of some roots.
pub open spec fn under_any(p: Names, roots: Seq<Names>) -> bool {
    exists|i: int| 0 <= i < roots.len() && path::lies_under(p, #[trigger] roots[i])
}

/// Which bound a walk passes at one of its entries.
pub open spec fn walk_fault_at(found: Nodes, i: int) -> Option<LimitFault> {
    if i + 1 >= DEFAULT_SCAN_ENTRY_BUDGET {
        Some(LimitFault::Entries { limit: DEFAULT_SCAN_ENTRY_BUDGET })
    } else if index::path_bytes(found.take(i + 1)) > DEFAULT_SCAN_PATH_BYTE_BUDGET {
        Some(LimitFault::PathBytes { limit: DEFAULT_SCAN_PATH_BYTE_BUDGET })
    } else {
        None
    }
}

/// Which bound the first entries of a walk pass first.
pub open spec fn walk_fault(found: Nodes, count: nat) -> Option<LimitFault>
    decreases count,
{
    if count == 0 {
        None
    } else {
        match walk_fault(found, (count - 1) as nat) {
            Some(fault) => Some(fault),
            None => walk_fault_at(found, count - 1),
        }
    }
}

/// What sealing the index of a tree gives: the completed index where its
/// structure is sound.
pub open spec fn sealed(tree: Nodes, result: Result<SnapshotIndex, SnapshotError>) -> bool {
    match result {
        Ok(index) => {
            &&& index.wf()
            &&& index::completes(tree, index.nodes())
            &&& index::structure_fault(index.nodes()) is None
        },
        Err(SnapshotError::LimitExceeded(fault)) => {
            &&& fault == LimitFault::IndexTotals
            &&& forall|filled: Nodes| !index::completes(tree, filled)
        },
        Err(SnapshotError::InvalidDescriptor(fault)) => exists|filled: Nodes| #[trigger]
            index::completes(tree, filled) && index::structure_fault(filled) == Some(fault),
        Err(_) => false,
    }
}

/// What sealing the one tree with a given map gives.
pub open spec fn sealed_map(map: Map<Names, IndexNode>, result: Result<SnapshotIndex, SnapshotError>) -> bool {
    exists|tree: Nodes|
        path_map::in_order(tree) && path_map::entry_map(tree) == map && #[trigger] sealed(tree, result)
}

impl SnapshotIndex {
    /// Fills in the directory nodes and checks the structure.
    fn seal(self) -> (result: Result<SnapshotIndex, SnapshotError>)
        requires
            self.wf(),
        ensures
            sealed(self.nodes(), result),
            sealed_map(self.entries@, result),
    {
        let ghost tree = self.nodes();
        let mut whole = self;
        match whole.recompute_directories() {
            Ok(_) => {},
            Err(error) => {
                return Err(error);
            },
        }
        match whole.validate_structure() {
            Ok(_) => Ok(whole),
            Err(error) => {
                proof {
                    assert(index::completes(tree, whole.nodes()));
                }
                Err(error)
            },
        }
    }

    /// Indexes a whole tree: its root and the entries that a walk found, in the
    /// order of the walk.
    pub fn build(root: SnapshotIndexEntry, walked: Vec<WalkedEntry>) -> (result: Result<
        SnapshotIndex,
        SnapshotError,
    >)
        ensures
            match walk_fault(walked_nodes(walked@), walked@.len()) {
                Some(fault) => result == Err::<SnapshotIndex, SnapshotError>(
                    SnapshotError::LimitExceeded(fault),
                ),
                None => sealed_map(
                    with_entries(map![Names::empty() => root@], walked_nodes(walked@)),
                    result,
                ),
            },
    {
        let ghost found = walked_nodes(walked@);
        let ghost start = map![Names::empty() => root@];
        let mut entries: PathMap<SnapshotIndexEntry> = PathMap::new();
        let root_path = RelPath::root();
        entries.insert(root_path, root);
        proof {
            assert(entries@ =~= start);
            assert(found.take(0) =~= Nodes::empty());
        }
        let mut total: usize = 0;
        let mut i: usize = 0;
        while i < walked.len()
            invariant
                i <= walked@.len(),
                found == walked_nodes(walked@),
                entries.wf(),
                entries@ == with_entries(start, found.take(i as int)),
                total == index::path_bytes(found.take(i as int)),
                walk_fault(found, i as nat) is None,
            decreases walked@.len() - i,
        {
            proof {
                assert(found.take(i as int + 1).drop_last() =~= found.take(i as int));
                assert(found.take(i as int + 1).last() == walked_node(walked@[i as int]));
                assert(walk_fault(found, (i + 1) as nat) == walk_fault_at(found, i as int));
                if walk_fault_at(found, i as int) is Some {
                    lemma_walk_fault_stays(found, (i + 1) as nat, found.len());
                }
            }
            if i >= DEFAULT_SCAN_ENTRY_BUDGET - 1 {
                return Err(
                    SnapshotError::LimitExceeded(
                        LimitFault::Entries { limit: DEFAULT_SCAN_ENTRY_BUDGET },
                    ),
                );
            }
            match checked_path_bytes(total, &walked[i].path) {
                Ok(next) => {
                    total = next;
                },
                Err(error) => {
                    return Err(error);
                },
            }
            let key = walked[i].path.copy();
            entries.insert(key, walked[i].entry);
            i = i + 1;
        }
        proof {
            assert(found.take(i as int) =~= found);
        }
        let whole = SnapshotIndex { entries };
        whole.seal()
    }
}

proof fn lemma_walk_fault_stays(found: Nodes, few: nat, many: nat)
    requires
        few <= many,
        walk_fault(found, few) is Some,
    ensures
        walk_fault(found, many) == walk_fault(found, few),
    decreases many,
{
    if few < many {
        lemma_walk_fault_stays(found, few, (many - 1) as nat);
    }
}

/// Whether every byte string is a relative path.
pub open spec fn all_relative(paths: Seq<Vec<u8>>) -> bool {
    forall|i: int| 0 <= i < paths.len() ==> path::relative_names((#[trigger] paths[i])@) is Some
}

/// The names of relative paths.
pub open spec fn all_names(paths: Seq<Vec<u8>>) -> Seq<Names> {
    Seq::new(paths.len(), |i: int| path::relative_names(paths[i]@)->0)
}

/// The roots of some paths: in order, each one of the paths, none below
/// another, and every path at or below one of them.
pub open spec fn are_roots_of(roots: Seq<Names>, names: Seq<Names>) -> bool {
    &&& forall|i: int, j: int|
        0 <= i < j < roots.len() ==> path::path_before(#[trigger] roots[i], #[trigger] roots[j])
    &&& forall|i: int| 0 <= i < roots.len() ==> names.contains(#[trigger] roots[i])
    &&& forall|i: int, j: int|
        0 <= i < roots.len() && 0 <= j < roots.len() && i != j ==> !path::lies_under(
            #[trigger] roots[i],
            #[trigger] roots[j],
        )
    &&& forall|k: int| 0 <= k < names.len() ==> under_any(#[trigger] names[k], roots)
}

/// The topmost of some paths, in order.
pub fn minimize_paths(paths: &Vec<Vec<u8>>) -> (result: Result<Vec<RelPath>, SnapshotError>)
    ensures
        match result {
            Ok(roots) => {
                &&& all_relative(paths@)
                &&& are_roots_of(path::path_views(roots@), all_names(paths@))
            },
            Err(error) => {
                &&& !all_relative(paths@)
                &&& error == SnapshotError::InvalidPath(PathFault::NotRelative)
            },
        },
{
    let ghost names = all_names(paths@);
    let mut sorted: PathMap<u32> = PathMap::new();
    let mut i: usize = 0;
    while i < paths.len()
        invariant
            i <= paths@.len(),
            names == all_names(paths@),
            sorted.wf(),
            forall|j: int| 0 <= j < i ==> path::relative_names((#[trigger] paths@[j])@) is Some,
            forall|j: int| 0 <= j < i ==> sorted@.dom().contains(#[trigger] names[j]),
            forall|p: Names| #[trigger] sorted@.dom().contains(p) ==> names.contains(p),
        decreases paths@.len() - i,
    {
        match RelPath::parse(paths[i].as_slice()) {
            Some(parsed) => {
                proof {
                    assert(names[i as int] == parsed@);
                    assert(names.contains(parsed@));
                }
                sorted.insert(parsed, 0);
            },
            None => {
                proof {
                    assert(path::relative_names(paths@[i as int]@) is None);
                }
                return Err(SnapshotError::InvalidPath(PathFault::NotRelative));
            },
        }
        i = i + 1;
    }
    let ghost listed = sorted.entries();
    let mut roots: Vec<RelPath> = Vec::new();
    let mut k: usize = 0;
    while k < sorted.len()
        invariant
            sorted.wf(),
            listed == sorted.entries(),
            k <= listed.len(),
            forall|a: int, b: int|
                0 <= a < b < roots@.len() ==> path::path_before(
                    #[trigger] path::path_views(roots@)[a],
                    #[trigger] path::path_views(roots@)[b],
                ),
            forall|a: int|
                0 <= a < roots@.len() ==> exists|c: int|
                    0 <= c < k && #[trigger] listed[c].0 == #[trigger] path::path_views(roots@)[a],
            forall|a: int, b: int|
                0 <= a < roots@.len() && 0 <= b < roots@.len() && a != b ==> !path::lies_under(
                    #[trigger] path::path_views(roots@)[a],
                    #[trigger] path::path_views(roots@)[b],
                ),
            forall|c: int| 0 <= c < k ==> under_any((#[trigger] listed[c]).0, path::path_views(roots@)),
        decreases listed.len() - k,
    {
        let candidate = sorted.path_at(k);
        let ghost before = path::path_views(roots@);
        let covered = lies_under_one(candidate, &roots);
        if !covered {
            let root = candidate.copy();
            let ghost added = root@;
            roots.push(root);
            proof {
                let after = path::path_views(roots@);
                assert(after =~= before.push(added));
                assert forall|a: int, b: int| 0 <= a < b < after.len() implies path::path_before(
                    #[trigger] after[a],
                    #[trigger] after[b],
                ) by {
                    if b == before.len() {
                        assert(before[a] == after[a]);
                        let c = choose|c: int| 0 <= c < k && #[trigger] listed[c].0 == before[a];
                        assert(path::path_before(listed[c].0, listed[k as int].0));
                    } else {
                        assert(path::path_before(before[a], before[b]));
                    }
                }
                assert forall|a: int| 0 <= a < after.len() implies exists|c: int|
                    0 <= c < k + 1 && #[trigger] listed[c].0 == #[trigger] after[a] by {
                    if a < before.len() {
                        assert(before[a] == after[a]);
                    } else {
                        assert(listed[k as int].0 == after[a]);
                    }
                }
                assert forall|a: int, b: int|
                    0 <= a < after.len() && 0 <= b < after.len() && a != b implies !path::lies_under(
                    #[trigger] after[a],
                    #[trigger] after[b],
                ) by {
                    if a == before.len() {
                        assert(before[b] == after[b]);
                    } else if b == before.len() {
                        assert(before[a] == after[a]);
                        let c = choose|c: int| 0 <= c < k && #[trigger] listed[c].0 == before[a];
                        assert(path::path_before(listed[c].0, listed[k as int].0));
                        if path::lies_under(after[a], after[b]) {
                            path::lemma_path_irreflexive(after[a]);
                            path::lemma_ancestor_before(after[b], after[a]);
                            path::lemma_path_transitive(after[a], after[b], after[a]);
                        }
                    } else {
                        assert(!path::lies_under(before[a], before[b]));
                    }
                }
                assert forall|c: int| 0 <= c < k + 1 implies under_any((#[trigger] listed[c]).0, after) by {
                    if c < k {
                        let r = choose|r: int|
                            0 <= r < before.len() && path::lies_under(listed[c].0, #[trigger] before[r]);
                        assert(after[r] == before[r]);
                    } else {
                        assert(added.take(added.len() as int) =~= added);
                        assert(path::lies_under(added, after[before.len() as int]));
                    }
                }
            }
        }
        k = k + 1;
    }
    proof {
        let views = path::path_views(roots@);
        assert forall|a: int| 0 <= a < views.len() implies names.contains(#[trigger] views[a]) by {
            let c = choose|c: int| 0 <= c < k && #[trigger] listed[c].0 == views[a];
            path_map::lemma_entry_at(listed, c);
            assert(sorted@.dom().contains(listed[c].0));
        }
        assert forall|n: int| 0 <= n < names.len() implies under_any(#[trigger] names[n], views) by {
            assert(sorted@.dom().contains(names[n]));
            let c = path_map::place_of(listed, names[n]);
            assert(under_any(listed[c].0, views));
        }
    }
    Ok(roots)
}

/// Whether a path lies at or below one of some roots.
pub fn lies_under_one(candidate: &RelPath, roots: &Vec<RelPath>) -> (result: bool)
    ensures
        result == under_any(candidate@, path::path_views(roots@)),
{
    let mut i: usize = 0;
    while i < roots.len()
        invariant
            i <= roots@.len(),
            forall|j: int| 0 <= j < i ==> !path::lies_under(candidate@, #[trigger] path::path_views(roots@)[j]),
        decreases roots@.len() - i,
    {
        if candidate.lies_below_or_at(&roots[i]) {
            proof {
                assert(path::lies_under(candidate@, path::path_views(roots@)[i as int]));
            }
            return true;
        }
        i = i + 1;
    }
    false
}

/// One entry of a branch's upper layer, with what the finished tree holds there.
pub struct UpperEntry {
    pub path: RelPath,
    pub kind: SnapshotEntryKind,
    pub entry: SnapshotIndexEntry,
}

/// What an entry of an upper layer stands for.
pub struct UpperNode {
    pub path: Names,
    pub kind: SnapshotEntryKind,
    pub node: IndexNode,
}

/// What the entries of an upper layer stand for.
pub open spec fn upper_nodes(upper: Seq<UpperEntry>) -> Seq<UpperNode> {
    Seq::new(
        upper.len(),
        |i: int| UpperNode { path: upper[i].path@, kind: upper[i].kind, node: upper[i].entry@ },
    )
}

/// Whether an entry of the upper layer changes nothing: a directory over a
/// directory whose mode the branch did not change.
pub open spec fn upper_is_unchanged(
    map: Map<Names, IndexNode>,
    changed: Map<Names, u32>,
    upper: UpperNode,
) -> bool {
    &&& upper.kind is Directory
    &&& !changed.dom().contains(upper.path)
    &&& map.dom().contains(upper.path)
    &&& map[upper.path].kind is Directory
}

/// Whether an entry of the upper layer replaces all that lay at its path.
pub open spec fn upper_replaces(map: Map<Names, IndexNode>, upper: UpperNode) -> bool {
    upper.kind !is Directory || (map.dom().contains(upper.path) && map[upper.path].kind !is Directory)
}

/// A map under one entry of the upper layer.
pub open spec fn with_upper(
    map: Map<Names, IndexNode>,
    changed: Map<Names, u32>,
    upper: UpperNode,
) -> Map<Names, IndexNode> {
    if upper_is_unchanged(map, changed, upper) {
        map
    } else if upper_replaces(map, upper) {
        without_roots(map, seq![upper.path]).insert(upper.path, upper.node)
    } else {
        map.insert(upper.path, upper.node)
    }
}

/// A map under a whole upper layer, entry by entry.
pub open spec fn with_upper_layer(
    map: Map<Names, IndexNode>,
    changed: Map<Names, u32>,
    upper: Seq<UpperNode>,
) -> Map<Names, IndexNode>
    decreases upper.len(),
{
    if upper.len() == 0 {
        map
    } else {
        with_upper(with_upper_layer(map, changed, upper.drop_last()), changed, upper.last())
    }
}

/// A map with another mode for its root, where it has one.
pub open spec fn with_root_mode(map: Map<Names, IndexNode>, mode: Option<u32>) -> Map<Names, IndexNode> {
    if mode is Some && map.dom().contains(Names::empty()) {
        map.insert(Names::empty(), IndexNode { mode: mode->0, ..map[Names::empty()] })
    } else {
        map
    }
}

impl SnapshotIndex {
    /// Drops what lies at or below some paths.
    fn without(&self, paths: &Vec<Vec<u8>>) -> (result: Result<SnapshotIndex, SnapshotError>)
        requires
            self.wf(),
        ensures
            match result {
                Ok(index) => {
                    &&& all_relative(paths@)
                    &&& index.wf()
                    &&& index.entries@ == without_roots(self.entries@, all_names(paths@))
                },
                Err(error) => {
                    &&& !all_relative(paths@)
                    &&& error == SnapshotError::InvalidPath(PathFault::NotRelative)
                },
            },
    {
        let roots = match minimize_paths(paths) {
            Ok(roots) => roots,
            Err(error) => {
                return Err(error);
            },
        };
        let ghost names = all_names(paths@);
        let ghost views = path::path_views(roots@);
        let ghost whole = self.entries@;
        let mut index = SnapshotIndex { entries: self.entries.copy() };
        let mut i: usize = 0;
        proof {
            assert(views.take(0) =~= Seq::<Names>::empty());
            assert(without_roots(whole, views.take(0)) =~= whole);
        }
        while i < roots.len()
            invariant
                i <= roots@.len(),
                views == path::path_views(roots@),
                index.wf(),
                index.entries@ == without_roots(whole, views.take(i as int)),
            decreases roots@.len() - i,
        {
            index.entries.remove_under(&roots[i]);
            proof {
                lemma_without_one_more(whole, views, i as int);
                assert(index.entries@ =~= without_roots(whole, views.take(i as int + 1)));
            }
            i = i + 1;
        }
        proof {
            assert(views.take(i as int) =~= views);
            assert forall|p: Names| #[trigger] under_any(p, views) <==> under_any(p, names) by {
                lemma_roots_cover(views, names, p);
            }
            assert(without_roots(whole, views) =~= without_roots(whole, names));
        }
        Ok(index)
    }

    /// Indexes some paths of a tree anew: what was listed at or below them goes,
    /// what a walk found there comes in.
    pub fn refresh_paths(&self, paths: &Vec<Vec<u8>>, found: Vec<WalkedEntry>) -> (result: Result<
        SnapshotIndex,
        SnapshotError,
    >)
        requires
            self.wf(),
        ensures
            if all_relative(paths@) {
                sealed_map(
                    with_entries(
                        without_roots(self.entries@, all_names(paths@)),
                        walked_nodes(found@),
                    ),
                    result,
                )
            } else {
                result == Err::<SnapshotIndex, SnapshotError>(
                    SnapshotError::InvalidPath(PathFault::NotRelative),
                )
            },
    {
        let mut index = match self.without(paths) {
            Ok(index) => index,
            Err(error) => {
                return Err(error);
            },
        };
        let ghost start = index.entries@;
        let ghost nodes = walked_nodes(found@);
        let mut i: usize = 0;
        proof {
            assert(nodes.take(0) =~= Nodes::empty());
        }
        while i < found.len()
            invariant
                i <= found@.len(),
                nodes == walked_nodes(found@),
                index.wf(),
                index.entries@ == with_entries(start, nodes.take(i as int)),
            decreases found@.len() - i,
        {
            proof {
                assert(nodes.take(i as int + 1).drop_last() =~= nodes.take(i as int));
                assert(nodes.take(i as int + 1).last() == walked_node(found@[i as int]));
            }
            let key = found[i].path.copy();
            index.entries.insert(key, found[i].entry);
            i = i + 1;
        }
        proof {
            assert(nodes.take(i as int) =~= nodes);
        }
        index.seal()
    }

    /// Indexes the tree that a branch makes of the indexed one: its deletions
    /// go, its upper layer comes in, its root may get another mode.
    pub fn apply_branch(
        &self,
        deleted: &Vec<Vec<u8>>,
        changed_directories: &PathMap<u32>,
        upper: Vec<UpperEntry>,
        root_mode: Option<u32>,
    ) -> (result: Result<SnapshotIndex, SnapshotError>)
        requires
            self.wf(),
            changed_directories.wf(),
        ensures
            if all_relative(deleted@) {
                sealed_map(
                    with_root_mode(
                        with_upper_layer(
                            without_roots(self.entries@, all_names(deleted@)),
                            changed_directories@,
                            upper_nodes(upper@),
                        ),
                        root_mode,
                    ),
                    result,
                )
            } else {
                result == Err::<SnapshotIndex, SnapshotError>(
                    SnapshotError::InvalidPath(PathFault::NotRelative),
                )
            },
    {
        let mut index = match self.without(deleted) {
            Ok(index) => index,
            Err(error) => {
                return Err(error);
            },
        };
        let ghost start = index.entries@;
        let ghost nodes = upper_nodes(upper@);
        let ghost changed = changed_directories@;
        let mut i: usize = 0;
        proof {
            assert(nodes.take(0) =~= Seq::<UpperNode>::empty());
        }
        while i < upper.len()
            invariant
                i <= upper@.len(),
                nodes == upper_nodes(upper@),
                changed_directories.wf(),
                changed == changed_directories@,
                index.wf(),
                index.entries@ == with_upper_layer(start, changed, nodes.take(i as int)),
            decreases upper@.len() - i,
        {
            let ghost node = nodes[i as int];
            let ghost before = index.entries@;
            proof {
                assert(nodes.take(i as int + 1).drop_last() =~= nodes.take(i as int));
                assert(nodes.take(i as int + 1).last() == node);
            }
            let present = match index.entries.get(&upper[i].path) {
                Some(current) => Some(current.kind == SnapshotEntryKind::Directory),
                None => None,
            };
            let over_directory = present == Some(true);
            let over_other = present == Some(false);
            let is_directory = upper[i].kind == SnapshotEntryKind::Directory;
            if !(is_directory && over_directory && !changed_directories.contains(&upper[i].path)) {
                if !is_directory || over_other {
                    index.entries.remove_under(&upper[i].path);
                    proof {
                        assert(seq![node.path][0] == node.path);
                        assert(index.entries@ =~= without_roots(before, seq![node.path]));
                    }
                }
                let key = upper[i].path.copy();
                index.entries.insert(key, upper[i].entry);
            }
            i = i + 1;
        }
        proof {
            assert(nodes.take(i as int) =~= nodes);
        }
        match root_mode {
            Some(mode) => {
                let root = RelPath::root();
                let current = match index.entries.get(&root) {
                    Some(entry) => Some(*entry),
                    None => None,
                };
                match current {
                    Some(entry) => {
                        let mut next = entry;
                        next.mode = mode;
                        proof {
                            assert(next@ =~= (IndexNode { mode, ..entry@ }));
                        }
                        index.entries.insert(root, next);
                    },
                    None => {},
                }
            },
            None => {},
        }
        index.seal()
    }
}

proof fn lemma_without_one_more(map: Map<Names, IndexNode>, roots: Seq<Names>, i: int)
    requires
        0 <= i < roots.len(),
    ensures
        forall|p: Names|
            #[trigger] under_any(p, roots.take(i + 1)) <==> (under_any(p, roots.take(i)) || path::lies_under(
                p,
                roots[i],
            )),
{
    assert forall|p: Names|
        #[trigger] under_any(p, roots.take(i + 1)) <==> (under_any(p, roots.take(i)) || path::lies_under(
            p,
            roots[i],
        )) by {
        if under_any(p, roots.take(i + 1)) {
            let k = choose|k: int|
                0 <= k < i + 1 && path::lies_under(p, #[trigger] roots.take(i + 1)[k]);
            if k < i {
                assert(roots.take(i)[k] == roots.take(i + 1)[k]);
            }
        }
        if under_any(p, roots.take(i)) {
            let k = choose|k: int| 0 <= k < i && path::lies_under(p, #[trigger] roots.take(i)[k]);
            assert(roots.take(i + 1)[k] == roots.take(i)[k]);
        }
        assert(roots.take(i + 1)[i] == roots[i]);
    }
}

/// What lies below something that lies below a root lies below that root.
pub proof fn lemma_under_transitive(a: Names, b: Names, c: Names)
    requires
        path::lies_under(a, b),
        path::lies_under(b, c),
    ensures
        path::lies_under(a, c),
{
    assert(a.take(c.len() as int) =~= a.take(b.len() as int).take(c.len() as int));
}

/// The roots of some paths cover what the paths cover.
proof fn lemma_roots_cover(roots: Seq<Names>, names: Seq<Names>, p: Names)
    requires
        are_roots_of(roots, names),
    ensures
        under_any(p, roots) <==> under_any(p, names),
{
    if under_any(p, roots) {
        let k = choose|k: int| 0 <= k < roots.len() && path::lies_under(p, #[trigger] roots[k]);
        assert(names.contains(roots[k]));
        let n = choose|n: int| 0 <= n < names.len() && names[n] == roots[k];
        assert(path::lies_under(p, names[n]));
    }
    if under_any(p, names) {
        let n = choose|n: int| 0 <= n < names.len() && path::lies_under(p, #[trigger] names[n]);
        assert(under_any(names[n], roots));
        let k = choose|k: int| 0 <= k < roots.len() && path::lies_under(names[n], #[trigger] roots[k]);
        lemma_under_transitive(p, names[n], roots[k]);
        assert(path::lies_under(p, roots[k]));
    }
}

/// Two indexes are the same where they were made of the same entries. What they held of
/// the children of directories before does not count.
pub proof fn lemma_same_entries_same_index(
    branched: Map<Names, IndexNode>,
    whole: Map<Names, IndexNode>,
    updated: SnapshotIndex,
    rebuilt: SnapshotIndex,
)
    requires
        branched.dom() == whole.dom(),
        forall|p: Names| #[trigger] branched.dom().contains(p) ==> index::same_entry((p, branched[p]), (p, whole[p])),
        sealed_map(branched, Ok(updated)),
        sealed_map(whole, Ok(rebuilt)),
    ensures
        updated.nodes() == rebuilt.nodes(),
{
    let a = choose|tree: Nodes|
        path_map::in_order(tree) && path_map::entry_map(tree) == branched && #[trigger] sealed(tree, Ok(updated));
    let b = choose|tree: Nodes|
        path_map::in_order(tree) && path_map::entry_map(tree) == whole && #[trigger] sealed(tree, Ok(rebuilt));
    assert forall|p: Names| #[trigger] path_map::has_path(a, p) <==> #[trigger] path_map::has_path(b, p) by {
        assert(path_map::entry_map(a).dom().contains(p) <==> path_map::entry_map(b).dom().contains(p));
    }
    path_map::lemma_same_paths_listed_alike(a, b);
    assert(index::completes(a, rebuilt.nodes())) by {
        assert forall|i: int| 0 <= i < a.len() implies index::same_entry(
            #[trigger] a[i],
            #[trigger] rebuilt.nodes()[i],
        ) by {
            path_map::lemma_entry_at(a, i);
            path_map::lemma_entry_at(b, i);
            assert(a[i].0 == b[i].0);
            assert(index::same_entry((a[i].0, branched[a[i].0]), (a[i].0, whole[a[i].0])));
            assert(index::same_entry(b[i], rebuilt.nodes()[i]));
        }
    }
    index::law_tree_determines_index(a, updated.nodes(), rebuilt.nodes());
}

/// Files and links are hashed under texts of their own, so that a file, a link and a
/// directory never have the same image, and neither have two files, or two links, that
/// differ.
pub proof fn law_leaves_are_told_apart(
    mode: u32,
    len: u64,
    content: Seq<u8>,
    other: Seq<u8>,
    directory_mode: u32,
    kids: Nodes,
)
    ensures
        file_domain() == "sandlock snapshot file".spec_bytes().push(0),
        symlink_domain() == "sandlock snapshot symlink".spec_bytes().push(0),
        file_node(mode, len, content).hash == index::blake3_digest(
            "sandlock snapshot file".spec_bytes().push(0) + content,
        ),
        symlink_node(mode, content).hash == index::blake3_digest(
            "sandlock snapshot symlink".spec_bytes().push(0) + vstd::bytes::spec_u64_to_le_bytes(content.len() as u64)
                + content,
        ),
        file_domain() + content == file_domain() + other ==> content == other,
        file_domain() + content != symlink_domain() + index::length_prefixed(other),
        file_domain() + content != index::directory_image(directory_mode, kids),
        symlink_domain() + index::length_prefixed(content) != index::directory_image(directory_mode, kids),
{
    reveal_strlit("sandlock snapshot file");
    reveal_strlit("sandlock snapshot symlink");
    vstd::utf8::is_ascii_chars_encode_utf8("sandlock snapshot file"@);
    vstd::utf8::is_ascii_chars_encode_utf8("sandlock snapshot symlink"@);
    assert(file_domain() =~= "sandlock snapshot file".spec_bytes().push(0));
    assert(symlink_domain() =~= "sandlock snapshot symlink".spec_bytes().push(0));
    assert(symlink_domain() + index::length_prefixed(content) =~= symlink_domain() + vstd::bytes::spec_u64_to_le_bytes(
        content.len() as u64,
    ) + content);
    let file = file_domain() + content;
    let link = symlink_domain() + index::length_prefixed(other);
    let directory = index::directory_image(directory_mode, kids);
    assert(file[18] == 0x66u8);
    assert(link[18] == 0x73u8);
    assert(directory[18] == 0x64u8);
    assert((symlink_domain() + index::length_prefixed(content))[18] == 0x73u8);
    if file_domain() + content == file_domain() + other {
        assert(file.skip(23) =~= content);
        assert((file_domain() + other).skip(23) =~= other);
    }
}

/// What an index records of a leaf: its kind, its mode, the length of a file, and the totals
/// of a single entry.
pub proof fn law_leaves_are_recorded(mode: u32, len: u64, bytes: Seq<u8>)
    ensures
        ({
            let file = file_node(mode, len, bytes);
            let link = symlink_node(mode, bytes);
            &&& file.kind is File && file.mode == mode && file.len == len
            &&& file.subtree_entries == 1 && file.content_bytes == len
            &&& link.kind is Symlink && link.mode == mode && link.len == 0
            &&& link.subtree_entries == 1 && link.content_bytes == 0
        }),
{
}

/// Taking paths away takes everything below them too, and leaves everything else as it was.
pub proof fn law_removed_paths_take_what_is_below(map: Map<Names, IndexNode>, roots: Seq<Names>, p: Names)
    ensures
        without_roots(map, roots).dom().contains(p) <==> map.dom().contains(p) && forall|i: int|
            0 <= i < roots.len() ==> !((#[trigger] roots[i]).len() <= p.len() && p.take(roots[i].len() as int) == roots[i]),
        without_roots(map, roots).dom().contains(p) ==> without_roots(map, roots)[p] == map[p],
{
}

proof fn lemma_unfound(map: Map<Names, IndexNode>, found: Nodes, p: Names)
    requires
        forall|i: int| 0 <= i < found.len() ==> (#[trigger] found[i]).0 != p,
    ensures
        with_entries(map, found).dom().contains(p) == map.dom().contains(p),
        with_entries(map, found)[p] == map[p],
    decreases found.len(),
{
    if found.len() > 0 {
        assert(found[found.len() - 1].0 != p);
        lemma_unfound(map, found.drop_last(), p);
    }
}

proof fn lemma_found(map: Map<Names, IndexNode>, found: Nodes, i: int)
    requires
        0 <= i < found.len(),
    ensures
        with_entries(map, found).dom().contains(found[i].0),
        (forall|j: int| i < j < found.len() ==> (#[trigger] found[j]).0 != found[i].0) ==> with_entries(
            map,
            found,
        )[found[i].0] == found[i].1,
    decreases found.len(),
{
    if i < found.len() - 1 {
        let rest = found.drop_last();
        lemma_found(map, rest, i);
        if forall|j: int| i < j < found.len() ==> (#[trigger] found[j]).0 != found[i].0 {
            assert(found[found.len() - 1].0 != found[i].0);
            assert forall|j: int| i < j < rest.len() implies (#[trigger] rest[j]).0 != rest[i].0 by {
                assert(found[j].0 != found[i].0);
            }
        }
    }
}

/// An index that was filled from a walk holds every entry that was found, as it was found
/// last, and of the rest what it held before.
pub proof fn law_found_entries_are_held(map: Map<Names, IndexNode>, found: Nodes, p: Names)
    ensures
        with_entries(map, found).dom().contains(p) <==> map.dom().contains(p) || exists|i: int|
            0 <= i < found.len() && (#[trigger] found[i]).0 == p,
        (forall|i: int| 0 <= i < found.len() ==> (#[trigger] found[i]).0 != p) ==> with_entries(map, found)[p] == map[p],
        forall|i: int|
            0 <= i < found.len() && (#[trigger] found[i]).0 == p && (forall|j: int|
                i < j < found.len() ==> (#[trigger] found[j]).0 != p) ==> with_entries(map, found)[p] == found[i].1,
{
    if forall|i: int| 0 <= i < found.len() ==> (#[trigger] found[i]).0 != p {
        lemma_unfound(map, found, p);
    } else {
        let i = choose|i: int| 0 <= i < found.len() && (#[trigger] found[i]).0 == p;
        lemma_found(map, found, i);
    }
    assert forall|i: int|
        0 <= i < found.len() && (#[trigger] found[i]).0 == p && (forall|j: int|
            i < j < found.len() ==> (#[trigger] found[j]).0 != p) implies with_entries(map, found)[p] == found[i].1 by {
        lemma_found(map, found, i);
    }
}

proof fn lemma_walk_fault(found: Nodes, count: nat)
    requires
        count <= found.len(),
    ensures
        walk_fault(found, count) is None <==> forall|i: int| 0 <= i < count ==> walk_fault_at(found, i) is None,
    decreases count,
{
    if count > 0 {
        lemma_walk_fault(found, (count - 1) as nat);
    }
}

/// A walk is within its limits exactly where it found fewer entries than an index may hold,
/// the root among them, with no more path bytes than allowed.
pub proof fn law_walks_are_bounded(found: Nodes)
    requires
        found.len() > 0,
    ensures
        walk_fault(found, found.len()) is None <==> found.len() < 100_000 && forall|i: int|
            0 < i <= found.len() ==> index::path_bytes(#[trigger] found.take(i)) <= 16_777_216,
{
    lemma_walk_fault(found, found.len());
    if walk_fault(found, found.len()) is None {
        assert(walk_fault_at(found, found.len() - 1) is None);
        assert forall|i: int| 0 < i <= found.len() implies index::path_bytes(#[trigger] found.take(i)) <= 16_777_216 by {
            assert(walk_fault_at(found, i - 1) is None);
        }
    } else {
        let i = choose|i: int| 0 <= i < found.len() && walk_fault_at(found, i) is Some;
        assert(found.take(i + 1) == found.take(i + 1));
    }
}

} // verus!
