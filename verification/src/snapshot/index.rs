//! File hashes and directory Merkle nodes of an immutable tree.

use crate::error::{DescriptorFault, LimitFault, SnapshotError};
use crate::path;
use crate::path::{append_bytes, Names, RelPath};
use crate::path_map;
use crate::path_map::{Duplicate, Entries, PathMap};
use crate::snapshot::{
    SnapshotEntryKind, DEFAULT_SCAN_ENTRY_BUDGET, DEFAULT_SCAN_PATH_BYTE_BUDGET, PERMISSION_BITS,
};
use vstd::bytes::*;
use vstd::prelude::*;
use vstd::string::StringSliceAdditionalSpecFns;

verus! {

/// The BLAKE3 digest of some bytes.
pub uninterp spec fn blake3_digest(input: Seq<u8>) -> Seq<u8>;

/// Calls `blake3::hash`. Claimed of it: the digest is a function of the bytes.
#[verifier::external_body]
pub(crate) fn blake3_hash(input: &[u8]) -> (digest: [u8; 32])
    ensures
        digest@ == blake3_digest(input@),
{
    *blake3::hash(input).as_bytes()
}

/// What the index records of one entry.
#[derive(Clone, Copy, Debug)]
pub struct SnapshotIndexEntry {
    pub kind: SnapshotEntryKind,
    pub mode: u32,
    pub len: u64,
    pub hash: [u8; 32],
    pub subtree_entries: u64,
    pub content_bytes: u64,
}

/// What an index entry stands for.
#[verifier::ext_equal]
pub struct IndexNode {
    pub kind: SnapshotEntryKind,
    pub mode: u32,
    pub len: u64,
    pub hash: Seq<u8>,
    pub subtree_entries: u64,
    pub content_bytes: u64,
}

/// The paths of an index with their nodes, in order.
pub type Nodes = Entries<IndexNode>;

impl View for SnapshotIndexEntry {
    type V = IndexNode;

    open spec fn view(&self) -> IndexNode {
        IndexNode {
            kind: self.kind,
            mode: self.mode,
            len: self.len,
            hash: self.hash@,
            subtree_entries: self.subtree_entries,
            content_bytes: self.content_bytes,
        }
    }
}

impl Duplicate for SnapshotIndexEntry {
    fn duplicate(&self) -> (result: Self) {
        *self
    }
}

/// The bytes `sandlock snapshot directory` and a zero byte.
pub open spec fn directory_domain() -> Seq<u8> {
    seq![
        0x73u8, 0x61, 0x6e, 0x64, 0x6c, 0x6f, 0x63, 0x6b, 0x20, 0x73, 0x6e, 0x61, 0x70, 0x73, 0x68,
        0x6f, 0x74, 0x20, 0x64, 0x69, 0x72, 0x65, 0x63, 0x74, 0x6f, 0x72, 0x79, 0x00,
    ]
}

/// The byte that stands for a kind in a directory node.
pub open spec fn kind_byte(kind: SnapshotEntryKind) -> u8 {
    match kind {
        SnapshotEntryKind::File => 1u8,
        SnapshotEntryKind::Directory => 2u8,
        SnapshotEntryKind::Symlink => 3u8,
    }
}

/// Whether `path` is an immediate child of `dir`.
pub open spec fn is_child(dir: Names, path: Names) -> bool {
    path.len() == dir.len() + 1 && path.drop_last() == dir
}

/// The immediate children of a directory, in order.
pub open spec fn children(nodes: Nodes, dir: Names) -> Nodes {
    nodes.filter(|node: (Names, IndexNode)| is_child(dir, node.0))
}

/// Bytes behind their length.
pub open spec fn length_prefixed(bytes: Seq<u8>) -> Seq<u8> {
    spec_u64_to_le_bytes(bytes.len() as u64) + bytes
}

/// What a directory node records of one child.
pub open spec fn child_record(child: (Names, IndexNode)) -> Seq<u8> {
    length_prefixed(child.0.last()) + seq![kind_byte(child.1.kind)] + spec_u32_to_le_bytes(child.1.mode)
        + spec_u64_to_le_bytes(
        if child.1.kind is File {
            child.1.len
        } else {
            0u64
        },
    ) + child.1.hash
}

/// What a directory node records of its children.
pub open spec fn child_records(kids: Nodes) -> Seq<u8>
    decreases kids.len(),
{
    if kids.len() == 0 {
        Seq::empty()
    } else {
        child_records(kids.drop_last()) + child_record(kids.last())
    }
}

/// The bytes that a directory node is the digest of.
pub open spec fn directory_image(mode: u32, kids: Nodes) -> Seq<u8> {
    directory_domain() + spec_u32_to_le_bytes(mode) + child_records(kids)
}

/// The entries below some children, themselves counted.
pub open spec fn entry_total(kids: Nodes) -> int
    decreases kids.len(),
{
    if kids.len() == 0 {
        0
    } else {
        entry_total(kids.drop_last()) + kids.last().1.subtree_entries
    }
}

/// The bytes of content below some children.
pub open spec fn content_total(kids: Nodes) -> int
    decreases kids.len(),
{
    if kids.len() == 0 {
        0
    } else {
        content_total(kids.drop_last()) + kids.last().1.content_bytes
    }
}

/// What the children of a directory determine of its node.
pub open spec fn follows_from(node: IndexNode, kids: Nodes) -> bool {
    &&& node.hash == blake3_digest(directory_image(node.mode, kids))
    &&& node.subtree_entries == 1 + entry_total(kids)
    &&& node.content_bytes == content_total(kids)
}

/// Whether the entry at a place, if a directory, follows from its children.
pub open spec fn consistent_at(nodes: Nodes, i: int) -> bool {
    nodes[i].1.kind is Directory ==> follows_from(nodes[i].1, children(nodes, nodes[i].0))
}

/// Every directory follows from its children.
pub open spec fn consistent(nodes: Nodes) -> bool {
    forall|i: int| 0 <= i < nodes.len() ==> #[trigger] consistent_at(nodes, i)
}

/// Two entries that may differ only in what the children of a directory
/// determine.
pub open spec fn same_entry(a: (Names, IndexNode), b: (Names, IndexNode)) -> bool {
    &&& a.0 == b.0
    &&& a.1.kind == b.1.kind
    &&& a.1.mode == b.1.mode
    &&& a.1.len == b.1.len
    &&& a.1.kind !is Directory ==> a.1 == b.1
}

/// The same tree, up to what the children of directories determine.
pub open spec fn same_tree(a: Nodes, b: Nodes) -> bool {
    &&& a.len() == b.len()
    &&& forall|i: int| 0 <= i < a.len() ==> same_entry(#[trigger] a[i], #[trigger] b[i])
}

/// The index `b` is the tree of `a` with every directory node filled in.
pub open spec fn completes(a: Nodes, b: Nodes) -> bool {
    same_tree(a, b) && consistent(b)
}

/// The places of the immediate children of a directory.
pub open spec fn child_places(nodes: Nodes, dir: Names) -> Seq<int>
    decreases nodes.len(),
{
    if nodes.len() == 0 {
        Seq::empty()
    } else if is_child(dir, nodes.last().0) {
        child_places(nodes.drop_last(), dir).push(nodes.len() - 1)
    } else {
        child_places(nodes.drop_last(), dir)
    }
}

/// The entries at some places.
pub open spec fn picked(nodes: Nodes, places: Seq<int>) -> Nodes {
    Seq::new(places.len(), |k: int| nodes[places[k]])
}

/// Places counted in machine words, as integers.
pub open spec fn as_places(places: Seq<usize>) -> Seq<int> {
    Seq::new(places.len(), |k: int| places[k] as int)
}

/// One more than the length of the longest path.
pub open spec fn depth_bound(nodes: Nodes) -> nat
    decreases nodes.len(),
{
    if nodes.len() == 0 {
        0
    } else {
        let rest = depth_bound(nodes.drop_last());
        if rest <= nodes.last().0.len() {
            nodes.last().0.len() + 1
        } else {
            rest
        }
    }
}

proof fn lemma_depth_bound(nodes: Nodes)
    ensures
        forall|i: int| 0 <= i < nodes.len() ==> (#[trigger] nodes[i]).0.len() < depth_bound(nodes),
    decreases nodes.len(),
{
    if nodes.len() > 0 {
        lemma_depth_bound(nodes.drop_last());
        assert forall|i: int| 0 <= i < nodes.len() implies (#[trigger] nodes[i]).0.len() < depth_bound(
            nodes,
        ) by {
            if i < nodes.len() - 1 {
                assert(nodes.drop_last()[i] == nodes[i]);
            }
        }
    }
}

proof fn lemma_children_picked(nodes: Nodes, dir: Names)
    ensures
        picked(nodes, child_places(nodes, dir)) == children(nodes, dir),
        forall|k: int|
            0 <= k < child_places(nodes, dir).len() ==> {
                &&& 0 <= #[trigger] child_places(nodes, dir)[k] < nodes.len()
                &&& is_child(dir, nodes[child_places(nodes, dir)[k]].0)
            },
    decreases nodes.len(),
{
    reveal(Seq::filter);
    if nodes.len() > 0 {
        let rest = nodes.drop_last();
        lemma_children_picked(rest, dir);
        let places = child_places(rest, dir);
        assert forall|k: int| 0 <= k < places.len() implies rest[#[trigger] places[k]] == nodes[places[k]] by {}
        assert(picked(nodes, places) =~= picked(rest, places));
        if is_child(dir, nodes.last().0) {
            assert(picked(nodes, places.push(nodes.len() - 1)) =~= picked(nodes, places).push(nodes.last()));
        }
        assert forall|k: int| 0 <= k < child_places(nodes, dir).len() implies {
            &&& 0 <= #[trigger] child_places(nodes, dir)[k] < nodes.len()
            &&& is_child(dir, nodes[child_places(nodes, dir)[k]].0)
        } by {
            if k < places.len() {
                assert(child_places(nodes, dir)[k] == places[k]);
            }
        }
    } else {
        assert(picked(nodes, child_places(nodes, dir)) =~= children(nodes, dir));
    }
}

proof fn lemma_child_places_by_paths(a: Nodes, b: Nodes, dir: Names)
    requires
        a.len() == b.len(),
        forall|i: int| 0 <= i < a.len() ==> (#[trigger] a[i]).0 == (#[trigger] b[i]).0,
    ensures
        child_places(a, dir) == child_places(b, dir),
    decreases a.len(),
{
    if a.len() > 0 {
        assert forall|i: int| 0 <= i < a.len() - 1 implies (#[trigger] a.drop_last()[i]).0 == (
        #[trigger] b.drop_last()[i]).0 by {
            assert(a[i].0 == b[i].0);
        }
        assert(a[a.len() - 1].0 == b[b.len() - 1].0);
        lemma_child_places_by_paths(a.drop_last(), b.drop_last(), dir);
    }
}

/// Two lists that agree on the children of a directory have the same children
/// there.
pub proof fn lemma_same_children(a: Nodes, b: Nodes, dir: Names)
    requires
        a.len() == b.len(),
        forall|i: int| 0 <= i < a.len() ==> (#[trigger] a[i]).0 == (#[trigger] b[i]).0,
        forall|i: int|
            0 <= i < a.len() && is_child(dir, (#[trigger] a[i]).0) ==> a[i] == #[trigger] b[i],
    ensures
        children(a, dir) == children(b, dir),
{
    lemma_children_picked(a, dir);
    lemma_children_picked(b, dir);
    lemma_child_places_by_paths(a, b, dir);
    let places = child_places(a, dir);
    assert(picked(a, places) =~= picked(b, places)) by {
        assert forall|k: int| 0 <= k < places.len() implies a[#[trigger] places[k]] == b[places[k]] by {
            assert(a[places[k]].0 == b[places[k]].0);
        }
    }
}

/// What the directories at some depth and below are follows from the tree.
proof fn lemma_determined_from(a: Nodes, b: Nodes, depth: nat, bound: nat)
    requires
        same_tree(a, b),
        forall|i: int| 0 <= i < a.len() ==> (#[trigger] a[i]).0.len() < bound,
        forall|i: int| 0 <= i < a.len() && a[i].0.len() >= depth ==> #[trigger] consistent_at(a, i),
        forall|i: int| 0 <= i < b.len() && b[i].0.len() >= depth ==> #[trigger] consistent_at(b, i),
    ensures
        forall|i: int|
            0 <= i < a.len() && (#[trigger] a[i]).0.len() >= depth ==> a[i] == #[trigger] b[i],
    decreases bound - depth,
{
    if depth < bound {
        lemma_determined_from(a, b, depth + 1, bound);
        assert forall|i: int| 0 <= i < a.len() && (#[trigger] a[i]).0.len() >= depth implies a[i]
            == #[trigger] b[i] by {
            assert(same_entry(a[i], b[i]));
            if a[i].0.len() == depth && a[i].1.kind is Directory {
                let dir = a[i].0;
                assert forall|j: int| 0 <= j < a.len() && is_child(dir, (#[trigger] a[j]).0) implies a[j]
                    == #[trigger] b[j] by {}
                assert forall|j: int| 0 <= j < a.len() implies (#[trigger] a[j]).0 == (#[trigger] b[j]).0 by {
                    assert(same_entry(a[j], b[j]));
                }
                lemma_same_children(a, b, dir);
                assert(consistent_at(a, i));
                assert(consistent_at(b, i));
                assert(a[i].1 =~= b[i].1);
            }
        }
    }
}

/// A tree has one index: two consistent indexes of the same tree are equal, and
/// so are their root hashes.
pub proof fn law_tree_determines_index(tree: Nodes, a: Nodes, b: Nodes)
    requires
        completes(tree, a),
        completes(tree, b),
    ensures
        a == b,
{
    assert(same_tree(a, b)) by {
        assert forall|i: int| 0 <= i < a.len() implies same_entry(#[trigger] a[i], #[trigger] b[i]) by {
            assert(same_entry(tree[i], a[i]));
            assert(same_entry(tree[i], b[i]));
        }
    }
    lemma_depth_bound(a);
    lemma_determined_from(a, b, 0, depth_bound(a));
    assert(a =~= b);
}

/// Two trees with the same paths, the same kinds, modes and lengths and the same
/// files and symbolic links have the same index.
pub proof fn law_equal_trees_have_equal_indexes(a: Nodes, b: Nodes)
    requires
        path_map::in_order(a),
        path_map::in_order(b),
        consistent(a),
        consistent(b),
        forall|path: Names|
            #[trigger] path_map::has_path(a, path) <==> #[trigger] path_map::has_path(b, path),
        forall|path: Names| #[trigger]
            path_map::has_path(a, path) ==> same_entry(
                (path, path_map::entry_map(a)[path]),
                (path, path_map::entry_map(b)[path]),
            ),
    ensures
        a == b,
{
    path_map::lemma_same_paths_listed_alike(a, b);
    assert(same_tree(a, b)) by {
        assert forall|i: int| 0 <= i < a.len() implies same_entry(#[trigger] a[i], #[trigger] b[i]) by {
            assert(path_map::has_path(a, a[i].0));
            path_map::lemma_entry_at(a, i);
            path_map::lemma_entry_at(b, i);
        }
    }
    lemma_same_tree_reflexive(a);
    law_tree_determines_index(a, a, b);
}

/// The byte that stands for a kind in a directory node.
pub fn kind_tag(kind: SnapshotEntryKind) -> (tag: u8)
    ensures
        tag == kind_byte(kind),
{
    match kind {
        SnapshotEntryKind::File => 1,
        SnapshotEntryKind::Directory => 2,
        SnapshotEntryKind::Symlink => 3,
    }
}

/// Appends bytes behind their length.
pub fn append_length_prefixed(image: &mut Vec<u8>, bytes: &[u8])
    ensures
        final(image)@ == old(image)@ + length_prefixed(bytes@),
{
    let length = u64_to_le_bytes(bytes.len() as u64);
    append_bytes(image, length.as_slice());
    append_bytes(image, bytes);
    proof {
        assert(image@ =~= old(image)@ + length_prefixed(bytes@));
    }
}

/// The index of one immutable tree.
pub struct SnapshotIndex {
    pub entries: PathMap<SnapshotIndexEntry>,
}

impl SnapshotIndex {
    /// The paths stand in order, each once.
    pub open spec fn wf(&self) -> bool {
        self.entries.wf()
    }

    /// The paths of the index with their nodes, in order.
    pub open spec fn nodes(&self) -> Nodes {
        self.entries.entries()
    }

    /// For each entry the places of its immediate children.
    fn child_lists(&self) -> (lists: Vec<Vec<usize>>)
        requires
            self.wf(),
        ensures
            lists@.len() == self.nodes().len(),
            forall|p: int|
                0 <= p < lists@.len() ==> as_places((#[trigger] lists@[p])@) == child_places(
                    self.nodes(),
                    self.nodes()[p].0,
                ),
    {
        let count = self.entries.len();
        let ghost nodes = self.nodes();
        let mut lists: Vec<Vec<usize>> = Vec::new();
        let mut filled: usize = 0;
        while filled < count
            invariant
                filled <= count,
                lists@.len() == filled,
                forall|p: int| 0 <= p < filled ==> (#[trigger] lists@[p])@.len() == 0,
            decreases count - filled,
        {
            lists.push(Vec::new());
            filled = filled + 1;
        }
        proof {
            assert forall|p: int| 0 <= p < lists@.len() implies as_places((#[trigger] lists@[p])@)
                == child_places(nodes.take(0), nodes[p].0) by {
                assert(as_places(lists@[p]@) =~= Seq::<int>::empty());
            }
        }
        let mut i: usize = 0;
        while i < count
            invariant
                self.wf(),
                nodes == self.nodes(),
                count == nodes.len(),
                i <= count,
                lists@.len() == count,
                forall|p: int|
                    0 <= p < lists@.len() ==> as_places((#[trigger] lists@[p])@) == child_places(
                        nodes.take(i as int),
                        nodes[p].0,
                    ),
            decreases count - i,
        {
            let ghost before = lists@;
            let ghost entry = nodes[i as int].0;
            proof {
                assert(nodes.take(i as int + 1).drop_last() =~= nodes.take(i as int));
                assert(nodes.take(i as int + 1).last() == nodes[i as int]);
            }
            let parent = self.entries.path_at(i).parent();
            match parent {
                Some(parent_path) => {
                    let place = self.entries.position(&parent_path);
                    match place {
                        Some(at) => {
                            lists[at].push(i);
                            proof {
                                assert forall|p: int| 0 <= p < lists@.len() implies as_places(
                                    (#[trigger] lists@[p])@,
                                ) == child_places(nodes.take(i as int + 1), nodes[p].0) by {
                                    if p == at {
                                        assert(as_places(lists@[p]@) =~= as_places(before[p]@).push(i as int));
                                    } else {
                                        assert(lists@[p] == before[p]);
                                        if is_child(nodes[p].0, entry) {
                                            path_map::lemma_place_unique(nodes, p, at as int);
                                        }
                                    }
                                }
                            }
                        },
                        None => {
                            proof {
                                assert forall|p: int| 0 <= p < lists@.len() implies !is_child(
                                    (#[trigger] nodes[p]).0,
                                    entry,
                                ) by {
                                    if is_child(nodes[p].0, entry) {
                                        assert(path_map::has_path(nodes, entry.drop_last()));
                                    }
                                }
                            }
                        },
                    }
                },
                None => {},
            }
            i = i + 1;
        }
        proof {
            assert(nodes.take(count as int) =~= nodes);
        }
        lists
    }

    /// The node of a directory with the children at some places; nothing where
    /// its totals do not fit.
    fn directory_node(&self, mode: u32, len: u64, kids: &Vec<usize>) -> (node: Option<SnapshotIndexEntry>)
        requires
            forall|k: int| 0 <= k < kids@.len() ==> #[trigger] kids@[k] < self.nodes().len(),
            forall|k: int|
                0 <= k < kids@.len() ==> self.nodes()[#[trigger] kids@[k] as int].0.len() > 0,
        ensures
            match node {
                Some(made) => {
                    &&& made.kind is Directory
                    &&& made.mode == mode
                    &&& made.len == len
                    &&& follows_from(made@, picked(self.nodes(), as_places(kids@)))
                },
                None => {
                    ||| 1 + entry_total(picked(self.nodes(), as_places(kids@))) > u64::MAX
                    ||| content_total(picked(self.nodes(), as_places(kids@))) > u64::MAX
                },
            },
    {
        let ghost nodes = self.nodes();
        let ghost all = picked(nodes, as_places(kids@));
        let mut image: Vec<u8> = vec![
            0x73u8, 0x61, 0x6e, 0x64, 0x6c, 0x6f, 0x63, 0x6b, 0x20, 0x73, 0x6e, 0x61, 0x70, 0x73, 0x68,
            0x6f, 0x74, 0x20, 0x64, 0x69, 0x72, 0x65, 0x63, 0x74, 0x6f, 0x72, 0x79, 0x00,
        ];
        proof {
            assert(image@ =~= directory_domain());
        }
        let mode_bytes = u32_to_le_bytes(mode);
        append_bytes(&mut image, mode_bytes.as_slice());
        let ghost head = image@;
        let mut subtree_entries: u64 = 1;
        let mut content_bytes: u64 = 0;
        let mut k: usize = 0;
        proof {
            assert(all.take(0) =~= Nodes::empty());
            assert(head + child_records(all.take(0)) =~= head);
        }
        while k < kids.len()
            invariant
                k <= kids@.len(),
                nodes == self.nodes(),
                all == picked(nodes, as_places(kids@)),
                forall|j: int| 0 <= j < kids@.len() ==> #[trigger] kids@[j] < nodes.len(),
                forall|j: int| 0 <= j < kids@.len() ==> nodes[#[trigger] kids@[j] as int].0.len() > 0,
                image@ == head + child_records(all.take(k as int)),
                subtree_entries == 1 + entry_total(all.take(k as int)),
                content_bytes == content_total(all.take(k as int)),
            decreases kids@.len() - k,
        {
            let at: usize = kids[k];
            let ghost kid = nodes[at as int];
            proof {
                assert(all.take(k as int + 1).drop_last() =~= all.take(k as int));
                assert(all.take(k as int + 1).last() == kid);
                lemma_totals_grow(all, k as int + 1);
            }
            let ghost before = image@;
            let child = *self.entries.value_at(at);
            let child_path = self.entries.path_at(at);
            let depth = child_path.depth();
            append_length_prefixed(&mut image, child_path.name(depth - 1));
            image.push(kind_tag(child.kind));
            let child_mode = u32_to_le_bytes(child.mode);
            append_bytes(&mut image, child_mode.as_slice());
            let semantic_len: u64 = if child.kind == SnapshotEntryKind::File {
                child.len
            } else {
                0
            };
            let child_len = u64_to_le_bytes(semantic_len);
            append_bytes(&mut image, child_len.as_slice());
            append_bytes(&mut image, child.hash.as_slice());
            proof {
                assert(image@ =~= before + child_record(kid));
                assert(image@ =~= head + child_records(all.take(k as int + 1)));
            }
            match subtree_entries.checked_add(child.subtree_entries) {
                Some(total) => {
                    subtree_entries = total;
                },
                None => {
                    return None;
                },
            }
            match content_bytes.checked_add(child.content_bytes) {
                Some(total) => {
                    content_bytes = total;
                },
                None => {
                    return None;
                },
            }
            k = k + 1;
        }
        proof {
            assert(all.take(k as int) =~= all);
            assert(image@ =~= directory_image(mode, all));
        }
        let hash = blake3_hash(image.as_slice());
        Some(SnapshotIndexEntry {
            kind: SnapshotEntryKind::Directory,
            mode,
            len,
            hash,
            subtree_entries,
            content_bytes,
        })
    }

    /// Fills in every directory node from its children, the deepest first.
    pub fn recompute_directories(&mut self) -> (result: Result<(), SnapshotError>)
        requires
            old(self).wf(),
        ensures
            final(self).wf(),
            same_tree(old(self).nodes(), final(self).nodes()),
            match result {
                Ok(_) => completes(old(self).nodes(), final(self).nodes()),
                Err(error) => {
                    &&& error == SnapshotError::LimitExceeded(LimitFault::IndexTotals)
                    &&& forall|filled: Nodes| !completes(old(self).nodes(), filled)
                },
            },
    {
        let lists = self.child_lists();
        let ghost tree = self.nodes();
        let count = self.entries.len();
        let mut steps: u128 = self.deepest() as u128 + 1;
        proof {
            lemma_same_tree_reflexive(tree);
        }
        while steps > 0
            invariant
                self.wf(),
                count == self.nodes().len(),
                tree == old(self).nodes(),
                same_tree(tree, self.nodes()),
                lists@.len() == count,
                forall|p: int|
                    0 <= p < lists@.len() ==> as_places((#[trigger] lists@[p])@) == child_places(
                        tree,
                        tree[p].0,
                    ),
                forall|i: int|
                    0 <= i < count && self.nodes()[i].0.len() >= steps ==> #[trigger] consistent_at(
                        self.nodes(),
                        i,
                    ),
                steps <= usize::MAX + 1,
            decreases steps,
        {
            steps = steps - 1;
            let depth: usize = steps as usize;
            let mut i: usize = 0;
            while i < count
                invariant
                    self.wf(),
                    i <= count,
                    count == self.nodes().len(),
                    tree == old(self).nodes(),
                    same_tree(tree, self.nodes()),
                    lists@.len() == count,
                    forall|p: int|
                        0 <= p < lists@.len() ==> as_places((#[trigger] lists@[p])@) == child_places(
                            tree,
                            tree[p].0,
                        ),
                    forall|j: int|
                        0 <= j < count && self.nodes()[j].0.len() > depth ==> #[trigger] consistent_at(
                            self.nodes(),
                            j,
                        ),
                    forall|j: int|
                        0 <= j < i && self.nodes()[j].0.len() == depth ==> #[trigger] consistent_at(
                            self.nodes(),
                            j,
                        ),
                decreases count - i,
            {
                let ghost now = self.nodes();
                let entry = *self.entries.value_at(i);
                if entry.kind == SnapshotEntryKind::Directory && self.entries.path_at(i).depth() == depth {
                    let ghost dir = now[i as int].0;
                    proof {
                        lemma_children_picked(now, dir);
                        assert(same_entry(tree[i as int], now[i as int]));
                        lemma_same_tree_paths(tree, now);
                        lemma_child_places_by_paths(tree, now, dir);
                        assert(as_places(lists@[i as int]@) == child_places(now, dir));
                        assert forall|k: int| 0 <= k < lists@[i as int]@.len() implies #[trigger] lists@[i as int]@[k]
                            < now.len() && now[lists@[i as int]@[k] as int].0.len() > 0 by {
                            assert(as_places(lists@[i as int]@)[k] == child_places(now, dir)[k]);
                        }
                    }
                    match self.directory_node(entry.mode, entry.len, &lists[i]) {
                        Some(node) => {
                            proof {
                                lemma_fill(now, i as int, node@);
                                assert(same_tree(tree, now.update(i as int, (now[i as int].0, node@)))) by {
                                    let next = now.update(i as int, (now[i as int].0, node@));
                                    assert forall|j: int| 0 <= j < tree.len() implies same_entry(
                                        #[trigger] tree[j],
                                        #[trigger] next[j],
                                    ) by {
                                        assert(same_entry(tree[j], now[j]));
                                    }
                                }
                            }
                            self.entries.replace_at(i, node);
                        },
                        None => {
                            proof {
                                assert forall|filled: Nodes| !completes(tree, filled) by {
                                    lemma_overflow_refutes(tree, now, filled, i as int);
                                }
                            }
                            return Err(SnapshotError::LimitExceeded(LimitFault::IndexTotals));
                        },
                    }
                }
                i = i + 1;
            }
        }
        proof {
            assert forall|i: int| 0 <= i < self.nodes().len() implies #[trigger] consistent_at(
                self.nodes(),
                i,
            ) by {}
        }
        Ok(())
    }

    /// The length of the longest path.
    fn deepest(&self) -> (deepest: usize)
        ensures
            forall|i: int| 0 <= i < self.nodes().len() ==> (#[trigger] self.nodes()[i]).0.len() <= deepest,
    {
        let mut deepest: usize = 0;
        let mut i: usize = 0;
        while i < self.entries.len()
            invariant
                i <= self.nodes().len(),
                forall|j: int| 0 <= j < i ==> (#[trigger] self.nodes()[j]).0.len() <= deepest,
            decreases self.nodes().len() - i,
        {
            let depth = self.entries.path_at(i).depth();
            if depth > deepest {
                deepest = depth;
            }
            i = i + 1;
        }
        deepest
    }
}

pub proof fn lemma_same_tree_reflexive(nodes: Nodes)
    ensures
        same_tree(nodes, nodes),
{
}

proof fn lemma_same_tree_paths(a: Nodes, b: Nodes)
    requires
        same_tree(a, b),
    ensures
        a.len() == b.len(),
        forall|i: int| 0 <= i < a.len() ==> (#[trigger] a[i]).0 == (#[trigger] b[i]).0,
{
    assert forall|i: int| 0 <= i < a.len() implies (#[trigger] a[i]).0 == (#[trigger] b[i]).0 by {
        assert(same_entry(a[i], b[i]));
    }
}

/// The totals of some children are at least those of the first of them.
proof fn lemma_totals_grow(kids: Nodes, count: int)
    requires
        0 <= count <= kids.len(),
    ensures
        0 <= entry_total(kids.take(count)) <= entry_total(kids),
        0 <= content_total(kids.take(count)) <= content_total(kids),
    decreases kids.len(),
{
    if count == kids.len() {
        assert(kids.take(count) =~= kids);
        if kids.len() > 0 {
            assert(kids.drop_last().take(count - 1) =~= kids.drop_last());
            lemma_totals_grow(kids.drop_last(), count - 1);
        }
    } else {
        lemma_totals_grow(kids.drop_last(), count);
        assert(kids.drop_last().take(count) =~= kids.take(count));
    }
}

/// Filling in one directory keeps every other node of its depth or deeper.
proof fn lemma_fill(nodes: Nodes, at: int, node: IndexNode)
    requires
        0 <= at < nodes.len(),
        nodes[at].1.kind is Directory,
        node.kind is Directory,
        follows_from(node, children(nodes, nodes[at].0)),
    ensures
        ({
            let next = nodes.update(at, (nodes[at].0, node));
            &&& consistent_at(next, at)
            &&& forall|j: int|
                0 <= j < nodes.len() && nodes[j].0.len() >= nodes[at].0.len() && j != at && consistent_at(
                    nodes,
                    j,
                ) ==> #[trigger] consistent_at(next, j)
        }),
{
    let next = nodes.update(at, (nodes[at].0, node));
    assert forall|j: int|
        0 <= j < nodes.len() && nodes[j].0.len() >= nodes[at].0.len() implies children(
        next,
        (#[trigger] nodes[j]).0,
    ) == children(nodes, nodes[j].0) by {
        lemma_same_children(nodes, next, nodes[j].0);
    }
    assert(next[at].0 == nodes[at].0);
    assert(children(next, nodes[at].0) == children(nodes, nodes[at].0));
}

/// Where the totals of a directory do not fit, no index completes the tree.
proof fn lemma_overflow_refutes(tree: Nodes, now: Nodes, filled: Nodes, at: int)
    requires
        0 <= at < now.len(),
        same_tree(tree, now),
        now[at].1.kind is Directory,
        forall|j: int|
            0 <= j < now.len() && now[j].0.len() > now[at].0.len() ==> #[trigger] consistent_at(now, j),
        1 + entry_total(children(now, now[at].0)) > u64::MAX || content_total(
            children(now, now[at].0),
        ) > u64::MAX,
    ensures
        !completes(tree, filled),
{
    if completes(tree, filled) {
        assert(same_tree(now, filled)) by {
            assert forall|i: int| 0 <= i < now.len() implies same_entry(
                #[trigger] now[i],
                #[trigger] filled[i],
            ) by {
                assert(same_entry(tree[i], now[i]));
                assert(same_entry(tree[i], filled[i]));
            }
        }
        lemma_depth_bound(now);
        lemma_same_tree_paths(now, filled);
        lemma_determined_from(now, filled, now[at].0.len() + 1, depth_bound(now));
        assert forall|j: int| 0 <= j < now.len() && is_child(now[at].0, (#[trigger] now[j]).0) implies now[j]
            == #[trigger] filled[j] by {}
        lemma_same_children(now, filled, now[at].0);
        assert(same_entry(now[at], filled[at]));
        assert(consistent_at(filled, at));
    }
}

/// The bytes that some paths take.
pub open spec fn path_bytes(nodes: Nodes) -> int
    decreases nodes.len(),
{
    if nodes.len() == 0 {
        0
    } else {
        path_bytes(nodes.drop_last()) + path::joined(nodes.last().0).len()
    }
}

/// Whether the totals of a file or symbolic link are its own.
pub open spec fn leaf_totals(node: IndexNode) -> bool {
    match node.kind {
        SnapshotEntryKind::File => node.subtree_entries == 1 && node.content_bytes == node.len,
        SnapshotEntryKind::Symlink => node.subtree_entries == 1 && node.content_bytes == 0,
        SnapshotEntryKind::Directory => true,
    }
}

/// Whether a path is listed as a directory.
pub open spec fn lists_directory(nodes: Nodes, path: Names) -> bool {
    path_map::has_path(nodes, path) && path_map::entry_map(nodes)[path].kind is Directory
}

/// What is wrong with one entry.
pub open spec fn entry_fault(nodes: Nodes, i: int) -> Option<DescriptorFault> {
    let (path, node) = nodes[i];
    if path_bytes(nodes.take(i + 1)) > DEFAULT_SCAN_PATH_BYTE_BUDGET {
        Some(DescriptorFault::IndexPathBudget)
    } else if node.mode > PERMISSION_BITS {
        Some(DescriptorFault::IndexMode { at: i as usize })
    } else if !leaf_totals(node) {
        Some(DescriptorFault::IndexLeafTotals { at: i as usize })
    } else if path.len() > 0 && !lists_directory(nodes, path.drop_last()) {
        Some(DescriptorFault::IndexParent { at: i as usize })
    } else {
        None
    }
}

/// What is wrong with the first entry, among the first `count`, that has a
/// fault.
pub open spec fn first_fault(nodes: Nodes, count: nat) -> Option<DescriptorFault>
    decreases count,
{
    if count == 0 {
        None
    } else {
        match first_fault(nodes, (count - 1) as nat) {
            Some(fault) => Some(fault),
            None => entry_fault(nodes, count - 1),
        }
    }
}

/// What is wrong with the structure of an index.
pub open spec fn structure_fault(nodes: Nodes) -> Option<DescriptorFault> {
    if !path_map::has_path(nodes, Names::empty()) {
        Some(DescriptorFault::IndexRootMissing)
    } else if path_map::entry_map(nodes)[Names::empty()].kind !is Directory {
        Some(DescriptorFault::IndexRootNotDirectory)
    } else if nodes.len() > DEFAULT_SCAN_ENTRY_BUDGET {
        Some(DescriptorFault::IndexEntryBudget)
    } else {
        first_fault(nodes, nodes.len())
    }
}

/// Adds the bytes of one path to a count, within the budget of a scan.
pub fn checked_path_bytes(current: usize, path: &RelPath) -> (result: Result<usize, SnapshotError>)
    ensures
        match result {
            Ok(next) => {
                &&& next == current + path::joined(path@).len()
                &&& next <= DEFAULT_SCAN_PATH_BYTE_BUDGET
            },
            Err(error) => {
                &&& error == SnapshotError::LimitExceeded(
                    LimitFault::PathBytes { limit: DEFAULT_SCAN_PATH_BYTE_BUDGET },
                )
                &&& current + path::joined(path@).len() > DEFAULT_SCAN_PATH_BYTE_BUDGET
            },
        },
{
    let bytes = path.to_bytes();
    match current.checked_add(bytes.len()) {
        Some(next) => {
            if next > DEFAULT_SCAN_PATH_BYTE_BUDGET {
                Err(
                    SnapshotError::LimitExceeded(
                        LimitFault::PathBytes { limit: DEFAULT_SCAN_PATH_BYTE_BUDGET },
                    ),
                )
            } else {
                Ok(next)
            }
        },
        None => Err(
            SnapshotError::LimitExceeded(
                LimitFault::PathBytes { limit: DEFAULT_SCAN_PATH_BYTE_BUDGET },
            ),
        ),
    }
}

/// Adds the bytes of one listed path to a count: passing the budget means that
/// the index is not what it should be.
pub fn checked_index_path_bytes(current: usize, path: &RelPath) -> (result: Result<usize, SnapshotError>)
    ensures
        match result {
            Ok(next) => {
                &&& next == current + path::joined(path@).len()
                &&& next <= DEFAULT_SCAN_PATH_BYTE_BUDGET
            },
            Err(error) => {
                &&& error == SnapshotError::InvalidDescriptor(DescriptorFault::IndexPathBudget)
                &&& current + path::joined(path@).len() > DEFAULT_SCAN_PATH_BYTE_BUDGET
            },
        },
{
    match checked_path_bytes(current, path) {
        Ok(next) => Ok(next),
        Err(_) => Err(SnapshotError::InvalidDescriptor(DescriptorFault::IndexPathBudget)),
    }
}

impl SnapshotIndex {
    /// The hash of the root.
    pub fn root_hash(&self) -> (result: Result<[u8; 32], SnapshotError>)
        requires
            self.wf(),
        ensures
            match result {
                Ok(hash) => {
                    &&& path_map::has_path(self.nodes(), Names::empty())
                    &&& hash@ == path_map::entry_map(self.nodes())[Names::empty()].hash
                },
                Err(error) => {
                    &&& !path_map::has_path(self.nodes(), Names::empty())
                    &&& error == SnapshotError::InvalidDescriptor(DescriptorFault::IndexRootMissing)
                },
            },
    {
        let root = RelPath::root();
        match self.entries.get(&root) {
            Some(entry) => Ok(entry.hash),
            None => Err(SnapshotError::InvalidDescriptor(DescriptorFault::IndexRootMissing)),
        }
    }

    /// Whether a path is listed as a directory.
    pub fn has_directory(&self, path: &RelPath) -> (result: bool)
        requires
            self.wf(),
        ensures
            result == lists_directory(self.nodes(), path@),
    {
        match self.entries.get(path) {
            Some(entry) => entry.kind == SnapshotEntryKind::Directory,
            None => false,
        }
    }

    /// Checks the structure of the index; the first fault is reported.
    pub fn validate_structure(&self) -> (result: Result<(), SnapshotError>)
        requires
            self.wf(),
        ensures
            match structure_fault(self.nodes()) {
                None => result is Ok,
                Some(fault) => result == Err::<(), SnapshotError>(SnapshotError::InvalidDescriptor(fault)),
            },
    {
        let ghost nodes = self.nodes();
        let root = RelPath::root();
        match self.entries.get(&root) {
            Some(entry) => {
                if entry.kind != SnapshotEntryKind::Directory {
                    return Err(SnapshotError::InvalidDescriptor(DescriptorFault::IndexRootNotDirectory));
                }
            },
            None => {
                return Err(SnapshotError::InvalidDescriptor(DescriptorFault::IndexRootMissing));
            },
        }
        if self.entries.len() > DEFAULT_SCAN_ENTRY_BUDGET {
            return Err(SnapshotError::InvalidDescriptor(DescriptorFault::IndexEntryBudget));
        }
        let mut total: usize = 0;
        let mut i: usize = 0;
        while i < self.entries.len()
            invariant
                self.wf(),
                nodes == self.nodes(),
                i <= nodes.len() <= DEFAULT_SCAN_ENTRY_BUDGET,
                path_map::has_path(nodes, Names::empty()),
                path_map::entry_map(nodes)[Names::empty()].kind is Directory,
                first_fault(nodes, i as nat) is None,
                total == path_bytes(nodes.take(i as int)),
            decreases nodes.len() - i,
        {
            proof {
                assert(nodes.take(i as int + 1).drop_last() =~= nodes.take(i as int));
                assert(nodes.take(i as int + 1).last() == nodes[i as int]);
                assert(first_fault(nodes, (i + 1) as nat) == entry_fault(nodes, i as int));
                if entry_fault(nodes, i as int) is Some {
                    lemma_first_fault_stays(nodes, (i + 1) as nat, nodes.len());
                }
            }
            let entry_path = self.entries.path_at(i);
            let entry = *self.entries.value_at(i);
            match checked_index_path_bytes(total, entry_path) {
                Ok(next) => {
                    total = next;
                },
                Err(error) => {
                    return Err(error);
                },
            }
            if entry.mode > PERMISSION_BITS {
                return Err(SnapshotError::InvalidDescriptor(DescriptorFault::IndexMode { at: i }));
            }
            let totals_are_own = match entry.kind {
                SnapshotEntryKind::File => entry.subtree_entries == 1 && entry.content_bytes == entry.len,
                SnapshotEntryKind::Symlink => entry.subtree_entries == 1 && entry.content_bytes == 0,
                SnapshotEntryKind::Directory => true,
            };
            if !totals_are_own {
                return Err(SnapshotError::InvalidDescriptor(DescriptorFault::IndexLeafTotals { at: i }));
            }
            match entry_path.parent() {
                Some(parent) => {
                    if !self.has_directory(&parent) {
                        return Err(SnapshotError::InvalidDescriptor(DescriptorFault::IndexParent { at: i }));
                    }
                },
                None => {},
            }
            i = i + 1;
        }
        Ok(())
    }

    /// Checks that every directory node follows from its children.
    pub fn validate_directory_nodes(&self) -> (result: Result<(), SnapshotError>)
        requires
            self.wf(),
        ensures
            match result {
                Ok(_) => consistent(self.nodes()),
                Err(SnapshotError::LimitExceeded(fault)) => {
                    &&& fault == LimitFault::IndexTotals
                    &&& forall|filled: Nodes| !completes(self.nodes(), filled)
                },
                Err(SnapshotError::InvalidDescriptor(fault)) => exists|filled: Nodes, at: int|
                    {
                        &&& #[trigger] completes(self.nodes(), filled)
                        &&& fault == DescriptorFault::IndexDirectoryNode { at: at as usize }
                        &&& 0 <= at < filled.len()
                        &&& #[trigger] filled[at] != self.nodes()[at]
                        &&& filled.take(at) == self.nodes().take(at)
                    },
                Err(_) => false,
            },
    {
        let ghost nodes = self.nodes();
        let mut rebuilt = SnapshotIndex { entries: self.entries.copy() };
        match rebuilt.recompute_directories() {
            Ok(_) => {},
            Err(_) => {
                return Err(SnapshotError::LimitExceeded(LimitFault::IndexTotals));
            },
        }
        let ghost filled = rebuilt.nodes();
        let mut i: usize = 0;
        while i < self.entries.len()
            invariant
                self.wf(),
                rebuilt.wf(),
                nodes == self.nodes(),
                filled == rebuilt.nodes(),
                completes(nodes, filled),
                i <= nodes.len(),
                forall|j: int| 0 <= j < i ==> #[trigger] filled[j] == nodes[j],
            decreases nodes.len() - i,
        {
            let entry = *self.entries.value_at(i);
            let made = *rebuilt.entries.value_at(i);
            proof {
                assert(same_entry(nodes[i as int], filled[i as int]));
            }
            if entry.kind == SnapshotEntryKind::Directory {
                if !path::bytes_equal(entry.hash.as_slice(), made.hash.as_slice()) || entry.subtree_entries
                    != made.subtree_entries || entry.content_bytes != made.content_bytes {
                    proof {
                        assert(filled.take(i as int) =~= nodes.take(i as int));
                        assert(filled[i as int] != nodes[i as int]);
                    }
                    return Err(
                        SnapshotError::InvalidDescriptor(DescriptorFault::IndexDirectoryNode { at: i }),
                    );
                }
                proof {
                    assert(filled[i as int].1 =~= nodes[i as int].1);
                }
            }
            i = i + 1;
        }
        proof {
            assert(filled =~= nodes);
        }
        Ok(())
    }
}

/// A fault among the first entries is the first fault of more entries too.
proof fn lemma_first_fault_stays(nodes: Nodes, few: nat, many: nat)
    requires
        few <= many,
        first_fault(nodes, few) is Some,
    ensures
        first_fault(nodes, many) == first_fault(nodes, few),
    decreases many,
{
    if few < many {
        lemma_first_fault_stays(nodes, few, (many - 1) as nat);
    }
}

proof fn lemma_record_parts(child: (Names, IndexNode))
    requires
        child.0.last().len() <= u64::MAX,
    ensures
        ({
            let record = child_record(child);
            let name = child.0.last();
            let n = name.len() as int;
            &&& record.len() == n + 21 + child.1.hash.len()
            &&& record.subrange(0, 8) == spec_u64_to_le_bytes(n as u64)
            &&& record.subrange(8, 8 + n) == name
            &&& record[8 + n] == match child.1.kind {
                SnapshotEntryKind::File => 1u8,
                SnapshotEntryKind::Directory => 2u8,
                SnapshotEntryKind::Symlink => 3u8,
            }
            &&& record.subrange(9 + n, 13 + n) == spec_u32_to_le_bytes(child.1.mode)
            &&& record.subrange(13 + n, 21 + n) == spec_u64_to_le_bytes(
                if child.1.kind is File {
                    child.1.len
                } else {
                    0u64
                },
            )
            &&& record.skip(21 + n) == child.1.hash
        }),
{
    lemma_auto_spec_u64_to_from_le_bytes();
    lemma_auto_spec_u32_to_from_le_bytes();
    let record = child_record(child);
    let name = child.0.last();
    let n = name.len() as int;
    assert(record.subrange(0, 8) =~= spec_u64_to_le_bytes(n as u64));
    assert(record.subrange(8, 8 + n) =~= name);
    assert(record.subrange(9 + n, 13 + n) =~= spec_u32_to_le_bytes(child.1.mode));
    assert(record.skip(21 + n) =~= child.1.hash);
}

/// The record of a child in the image of its directory: the length of its name in eight
/// bytes and the name, one byte for its kind, its mode in four bytes, in eight the length of
/// a file, or zero, and its hash.
pub proof fn law_records_hold_the_child(child: (Names, IndexNode))
    requires
        child.0.last().len() <= u64::MAX,
    ensures
        ({
            let record = child_record(child);
            let name = child.0.last();
            let n = name.len() as int;
            &&& record.len() == n + 21 + child.1.hash.len()
            &&& record.subrange(0, 8) == spec_u64_to_le_bytes(n as u64)
            &&& record.subrange(8, 8 + n) == name
            &&& record[8 + n] == match child.1.kind {
                SnapshotEntryKind::File => 1u8,
                SnapshotEntryKind::Directory => 2u8,
                SnapshotEntryKind::Symlink => 3u8,
            }
            &&& record.subrange(9 + n, 13 + n) == spec_u32_to_le_bytes(child.1.mode)
            &&& record.subrange(13 + n, 21 + n) == spec_u64_to_le_bytes(
                if child.1.kind is File {
                    child.1.len
                } else {
                    0u64
                },
            )
            &&& record.skip(21 + n) == child.1.hash
        }),
{
    lemma_record_parts(child);
}

proof fn lemma_records_from_the_front(kids: Nodes)
    requires
        kids.len() > 0,
    ensures
        child_records(kids) == child_record(kids[0]) + child_records(kids.skip(1)),
    decreases kids.len(),
{
    if kids.len() == 1 {
        assert(kids.drop_last() =~= Seq::empty());
        assert(kids.skip(1) =~= Seq::empty());
        assert(child_records(kids.drop_last()) =~= Seq::<u8>::empty());
        assert(child_records(kids) =~= child_record(kids[0]) + child_records(kids.skip(1)));
    } else {
        lemma_records_from_the_front(kids.drop_last());
        assert(kids.skip(1).drop_last() =~= kids.drop_last().skip(1));
        assert(kids.skip(1).last() == kids.last());
        assert(child_records(kids) =~= child_record(kids[0]) + child_records(kids.skip(1)));
    }
}

/// Whether a child can stand in an image.
pub open spec fn is_recorded(child: (Names, IndexNode)) -> bool {
    child.0.last().len() <= u64::MAX && child.1.hash.len() == 32
}

/// Whether two children look the same to their directory.
pub open spec fn looks_the_same(a: (Names, IndexNode), b: (Names, IndexNode)) -> bool {
    &&& a.0.last() == b.0.last()
    &&& a.1.kind == b.1.kind
    &&& a.1.mode == b.1.mode
    &&& a.1.kind is File ==> a.1.len == b.1.len
    &&& a.1.hash == b.1.hash
}

proof fn lemma_front_records_agree(x: (Names, IndexNode), y: (Names, IndexNode), rest: Seq<u8>, other: Seq<u8>)
    requires
        is_recorded(x),
        is_recorded(y),
        child_record(x) + rest == child_record(y) + other,
    ensures
        looks_the_same(x, y),
        rest == other,
{
    lemma_record_parts(x);
    lemma_record_parts(y);
    let all = child_record(x) + rest;
    let n = x.0.last().len() as int;
    let m = y.0.last().len() as int;
    lemma_auto_spec_u64_to_from_le_bytes();
    lemma_auto_spec_u32_to_from_le_bytes();
    assert(all.subrange(0, 8) =~= child_record(x).subrange(0, 8));
    assert(all.subrange(0, 8) =~= child_record(y).subrange(0, 8));
    assert(spec_u64_from_le_bytes(all.subrange(0, 8)) == n as u64);
    assert(spec_u64_from_le_bytes(all.subrange(0, 8)) == m as u64);
    assert(n == m);
    assert(all.subrange(8, 8 + n) =~= child_record(x).subrange(8, 8 + n));
    assert(all.subrange(8, 8 + n) =~= child_record(y).subrange(8, 8 + n));
    assert(all[8 + n] == child_record(x)[8 + n]);
    assert(all[8 + n] == child_record(y)[8 + n]);
    assert(all.subrange(9 + n, 13 + n) =~= child_record(x).subrange(9 + n, 13 + n));
    assert(all.subrange(9 + n, 13 + n) =~= child_record(y).subrange(9 + n, 13 + n));
    assert(spec_u32_from_le_bytes(all.subrange(9 + n, 13 + n)) == x.1.mode);
    assert(spec_u32_from_le_bytes(all.subrange(9 + n, 13 + n)) == y.1.mode);
    assert(all.subrange(13 + n, 21 + n) =~= child_record(x).subrange(13 + n, 21 + n));
    assert(all.subrange(13 + n, 21 + n) =~= child_record(y).subrange(13 + n, 21 + n));
    if x.1.kind is File {
        assert(spec_u64_from_le_bytes(all.subrange(13 + n, 21 + n)) == x.1.len);
        assert(spec_u64_from_le_bytes(all.subrange(13 + n, 21 + n)) == y.1.len);
    }
    assert(all.subrange(21 + n, 53 + n) =~= child_record(x).skip(21 + n));
    assert(all.subrange(21 + n, 53 + n) =~= child_record(y).skip(21 + n));
    assert(all.skip(53 + n) =~= rest);
    assert(all.skip(53 + n) =~= other);
}

proof fn lemma_records_agree(a: Nodes, b: Nodes)
    requires
        forall|i: int| 0 <= i < a.len() ==> is_recorded(#[trigger] a[i]),
        forall|i: int| 0 <= i < b.len() ==> is_recorded(#[trigger] b[i]),
        child_records(a) == child_records(b),
    ensures
        a.len() == b.len(),
        forall|i: int| 0 <= i < a.len() ==> looks_the_same(#[trigger] a[i], b[i]),
    decreases a.len(),
{
    if a.len() > 0 {
        lemma_records_from_the_front(a);
        assert(is_recorded(a[0]));
        lemma_record_parts(a[0]);
    }
    if b.len() > 0 {
        lemma_records_from_the_front(b);
        assert(is_recorded(b[0]));
        lemma_record_parts(b[0]);
    }
    if a.len() > 0 && b.len() > 0 {
        let left = a.skip(1);
        let right = b.skip(1);
        lemma_front_records_agree(a[0], b[0], child_records(left), child_records(right));
        assert forall|i: int| 0 <= i < left.len() implies is_recorded(#[trigger] left[i]) by {
            assert(left[i] == a[i + 1]);
        }
        assert forall|i: int| 0 <= i < right.len() implies is_recorded(#[trigger] right[i]) by {
            assert(right[i] == b[i + 1]);
        }
        lemma_records_agree(left, right);
        assert forall|i: int| 0 <= i < a.len() implies looks_the_same(#[trigger] a[i], b[i]) by {
            if i > 0 {
                assert(left[i - 1] == a[i]);
                assert(right[i - 1] == b[i]);
            }
        }
    } else if a.len() > 0 {
        assert(child_records(a).len() > 0);
        assert(child_records(b).len() == 0);
    } else if b.len() > 0 {
        assert(child_records(b).len() > 0);
        assert(child_records(a).len() == 0);
    }
}

/// Directories that differ have different images: the image of a directory gives back its
/// mode and, of each of its children, the name, the kind, the mode, the length of a file and
/// the hash.
pub proof fn law_images_tell_directories_apart(mode: u32, kids: Nodes, other_mode: u32, other_kids: Nodes)
    requires
        forall|i: int| 0 <= i < kids.len() ==> is_recorded(#[trigger] kids[i]),
        forall|i: int| 0 <= i < other_kids.len() ==> is_recorded(#[trigger] other_kids[i]),
        directory_image(mode, kids) == directory_image(other_mode, other_kids),
    ensures
        mode == other_mode,
        kids.len() == other_kids.len(),
        forall|i: int| 0 <= i < kids.len() ==> looks_the_same(#[trigger] kids[i], other_kids[i]),
{
    lemma_auto_spec_u32_to_from_le_bytes();
    let image = directory_image(mode, kids);
    assert(image.subrange(28, 32) =~= spec_u32_to_le_bytes(mode));
    assert(image.subrange(28, 32) =~= spec_u32_to_le_bytes(other_mode));
    assert(spec_u32_from_le_bytes(image.subrange(28, 32)) == mode);
    assert(image.skip(32) =~= child_records(kids));
    assert(image.skip(32) =~= child_records(other_kids));
    lemma_records_agree(kids, other_kids);
}

/// The image of a directory begins with a text of its own.
pub proof fn law_directory_images_say_what_they_are()
    ensures
        directory_domain() == "sandlock snapshot directory".spec_bytes().push(0),
{
    reveal_strlit("sandlock snapshot directory");
    vstd::utf8::is_ascii_chars_encode_utf8("sandlock snapshot directory"@);
    assert(directory_domain() =~= "sandlock snapshot directory".spec_bytes().push(0));
}

/// A directory of leaves counts itself and each of them, and the bytes of its files alone.
pub proof fn law_directories_count_their_leaves(node: IndexNode, kids: Nodes)
    requires
        follows_from(node, kids),
        forall|i: int| 0 <= i < kids.len() ==> !((#[trigger] kids[i]).1.kind is Directory) && leaf_totals(kids[i].1),
    ensures
        node.subtree_entries == kids.len() + 1,
        node.content_bytes == kids.fold_left(
            0int,
            |sum: int, kid: (Names, IndexNode)| if kid.1.kind is File {
                sum + kid.1.len
            } else {
                sum
            },
        ),
{
    lemma_leaf_totals(kids);
}

proof fn lemma_leaf_totals(kids: Nodes)
    requires
        forall|i: int| 0 <= i < kids.len() ==> !((#[trigger] kids[i]).1.kind is Directory) && leaf_totals(kids[i].1),
    ensures
        entry_total(kids) == kids.len(),
        content_total(kids) == kids.fold_left(
            0int,
            |sum: int, kid: (Names, IndexNode)| if kid.1.kind is File {
                sum + kid.1.len
            } else {
                sum
            },
        ),
    decreases kids.len(),
{
    if kids.len() > 0 {
        let rest = kids.drop_last();
        assert forall|i: int| 0 <= i < rest.len() implies !((#[trigger] rest[i]).1.kind is Directory) && leaf_totals(
            rest[i].1,
        ) by {
            assert(rest[i] == kids[i]);
        }
        assert(kids[kids.len() - 1] == kids.last());
        lemma_leaf_totals(rest);
    }
}

proof fn lemma_no_fault_so_far(nodes: Nodes, count: nat)
    requires
        count <= nodes.len(),
    ensures
        first_fault(nodes, count) is None <==> forall|i: int| 0 <= i < count ==> entry_fault(nodes, i) is None,
    decreases count,
{
    if count > 0 {
        lemma_no_fault_so_far(nodes, (count - 1) as nat);
    }
}

proof fn lemma_path_bytes_grow(nodes: Nodes, i: int, j: int)
    requires
        0 <= i <= j <= nodes.len(),
    ensures
        path_bytes(nodes.take(i)) <= path_bytes(nodes.take(j)),
    decreases j - i,
{
    if i < j {
        lemma_path_bytes_grow(nodes, i, j - 1);
        assert(nodes.take(j).drop_last() =~= nodes.take(j - 1));
    }
}

/// An index is sound exactly where its root is a directory, it has no more entries and path
/// bytes than the limits, every mode holds permission bits alone, every file counts itself
/// and its bytes, every link itself, and every entry lies in a directory of the index.
pub proof fn law_sound_indexes_are_trees(nodes: Nodes)
    ensures
        structure_fault(nodes) is None <==> {
            &&& lists_directory(nodes, Names::empty())
            &&& nodes.len() <= 100_000
            &&& path_bytes(nodes) <= 16_777_216
            &&& forall|i: int| 0 <= i < nodes.len() ==> {
                let (at, node) = #[trigger] nodes[i];
                &&& node.mode <= 0o7777
                &&& node.kind is File ==> node.subtree_entries == 1 && node.content_bytes == node.len
                &&& node.kind is Symlink ==> node.subtree_entries == 1 && node.content_bytes == 0
                &&& at.len() > 0 ==> path_map::has_path(nodes, at.drop_last()) && path_map::entry_map(
                    nodes,
                )[at.drop_last()].kind is Directory
            }
        },
{
    lemma_no_fault_so_far(nodes, nodes.len());
    assert(nodes.take(nodes.len() as int) =~= nodes);
    if structure_fault(nodes) is None {
        assert forall|i: int| 0 <= i < nodes.len() implies entry_fault(nodes, i) is None by {}
        if nodes.len() > 0 {
            assert(entry_fault(nodes, nodes.len() - 1) is None);
        }
        assert forall|i: int| 0 <= i < nodes.len() implies ({
            let (at, node) = #[trigger] nodes[i];
            &&& node.mode <= 0o7777
            &&& node.kind is File ==> node.subtree_entries == 1 && node.content_bytes == node.len
            &&& node.kind is Symlink ==> node.subtree_entries == 1 && node.content_bytes == 0
            &&& at.len() > 0 ==> path_map::has_path(nodes, at.drop_last()) && path_map::entry_map(
                nodes,
            )[at.drop_last()].kind is Directory
        }) by {
            assert(entry_fault(nodes, i) is None);
        }
    } else if lists_directory(nodes, Names::empty()) && nodes.len() <= 100_000 && path_bytes(nodes) <= 16_777_216 {
        let i = choose|i: int| 0 <= i < nodes.len() && entry_fault(nodes, i) is Some;
        lemma_path_bytes_grow(nodes, i + 1, nodes.len() as int);
        assert(nodes[i] == nodes[i]);
    }
}

} // verus!
