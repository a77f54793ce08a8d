//! The stored form of an index.
//!
//! An index is stored as the list of its rows in bincode's fixed-width form.

use crate::error::{DescriptorFault, LimitFault, SnapshotError, Step};
use crate::path;
use crate::path::{Names, RelPath};
use crate::path_map;
use crate::path_map::PathMap;
use crate::snapshot::index;
use crate::snapshot::index::{IndexNode, Nodes, SnapshotIndex, SnapshotIndexEntry};
use crate::snapshot::{
    SnapshotEntryKind, DEFAULT_SCAN_ENTRY_BUDGET, DEFAULT_SCAN_PATH_BYTE_BUDGET,
};
use bincode::Options as _;
use vstd::prelude::*;

verus! {

/// The most bytes that a stored index may take.
pub const MAX_INDEX_BYTES: u64 = 67_108_864;

/// One stored entry: path, kind, mode, length, hash and the two totals.
pub type StoredRow = (Vec<u8>, u32, u32, u64, [u8; 32], u64, u64);

/// What a stored entry holds.
#[verifier::ext_equal]
pub struct Row {
    pub path: Seq<u8>,
    pub kind: u32,
    pub mode: u32,
    pub len: u64,
    pub hash: Seq<u8>,
    pub subtree_entries: u64,
    pub content_bytes: u64,
}

/// What a stored entry holds.
pub open spec fn row_of(row: StoredRow) -> Row {
    Row {
        path: row.0@,
        kind: row.1,
        mode: row.2,
        len: row.3,
        hash: row.4@,
        subtree_entries: row.5,
        content_bytes: row.6,
    }
}

/// What stored entries hold.
pub open spec fn rows_of(rows: Seq<StoredRow>) -> Seq<Row> {
    Seq::new(rows.len(), |i: int| row_of(rows[i]))
}

/// A number in a fixed count of bytes, the lowest first.
pub open spec fn le_bytes(value: int, width: nat) -> Seq<u8>
    decreases width,
{
    if width == 0 {
        Seq::empty()
    } else {
        seq![(value % 256) as u8] + le_bytes(value / 256, (width - 1) as nat)
    }
}

/// The stored form of a row: a counted path, kind, mode, length, hash and the two
/// totals.
pub open spec fn row_image(row: Row) -> Seq<u8> {
    le_bytes(row.path.len() as int, 8) + row.path + le_bytes(row.kind as int, 4) + le_bytes(row.mode as int, 4)
        + le_bytes(row.len as int, 8) + row.hash + le_bytes(row.subtree_entries as int, 8) + le_bytes(
        row.content_bytes as int,
        8,
    )
}

/// The stored forms of rows, one behind the other.
pub open spec fn row_images(rows: Seq<Row>) -> Seq<u8>
    decreases rows.len(),
{
    if rows.len() == 0 {
        Seq::empty()
    } else {
        row_images(rows.drop_last()) + row_image(rows.last())
    }
}

/// The stored form of rows: their count, then each of them.
pub open spec fn bincode_image(rows: Seq<Row>) -> Seq<u8> {
    le_bytes(rows.len() as int, 8) + row_images(rows)
}

/// The counts of a row fit in 64 bits, and its hash has the length of a hash.
pub open spec fn fits(row: Row) -> bool {
    row.path.len() <= u64::MAX && row.hash.len() == 32
}

/// Rows that can be stored.
pub open spec fn are_rows(rows: Seq<Row>) -> bool {
    rows.len() <= u64::MAX && forall|i: int| 0 <= i < rows.len() ==> fits(#[trigger] rows[i])
}

/// Whether bytes are the stored form of rows.
pub open spec fn stores(bytes: Seq<u8>, rows: Seq<Row>) -> bool {
    are_rows(rows) && bytes == bincode_image(rows)
}

/// The rows that bytes are the stored form of, if they are one.
pub open spec fn bincode_rows(bytes: Seq<u8>) -> Option<Seq<Row>> {
    if exists|rows: Seq<Row>| stores(bytes, rows) {
        Some(choose|rows: Seq<Row>| stores(bytes, rows))
    } else {
        None
    }
}

/// The bytes that rows take: a count, and of each row a counted path, two
/// `u32`, three `u64` and a hash.
pub open spec fn stored_size(rows: Seq<Row>) -> int
    decreases rows.len(),
{
    if rows.len() == 0 {
        8
    } else {
        stored_size(rows.drop_last()) + 72 + rows.last().path.len()
    }
}

/// The first number that does not fit in a count of bytes.
spec fn le_limit(width: nat) -> int
    decreases width,
{
    if width == 0 {
        1
    } else {
        256 * le_limit((width - 1) as nat)
    }
}

proof fn lemma_le_length(value: int, width: nat)
    ensures
        le_bytes(value, width).len() == width,
    decreases width,
{
    if width > 0 {
        lemma_le_length(value / 256, (width - 1) as nat);
    }
}

proof fn lemma_le_injective(a: int, b: int, width: nat)
    requires
        0 <= a < le_limit(width),
        0 <= b < le_limit(width),
        le_bytes(a, width) == le_bytes(b, width),
    ensures
        a == b,
    decreases width,
{
    if width > 0 {
        let rest = (width - 1) as nat;
        let (x, y) = (le_bytes(a, width), le_bytes(b, width));
        lemma_le_length(a / 256, rest);
        lemma_le_length(b / 256, rest);
        assert(x[0] == (a % 256) as u8 && y[0] == (b % 256) as u8);
        assert(x.subrange(1, width as int) =~= le_bytes(a / 256, rest));
        assert(y.subrange(1, width as int) =~= le_bytes(b / 256, rest));
        lemma_le_injective(a / 256, b / 256, rest);
    }
}

proof fn lemma_le_limits()
    ensures
        le_limit(8) == u64::MAX + 1,
        le_limit(4) == u32::MAX + 1,
{
    reveal_with_fuel(le_limit, 9);
}

/// The parts of a row's stored form, with something behind it.
proof fn lemma_row_parts(row: Row, behind: Seq<u8>)
    requires
        row.hash.len() == 32,
    ensures
        ({
            let all = row_image(row) + behind;
            let n = row.path.len() as int;
            &&& row_image(row).len() == n + 72
            &&& all.len() == n + 72 + behind.len()
            &&& all.subrange(0, 8) == le_bytes(n, 8)
            &&& all.subrange(8, n + 8) == row.path
            &&& all.subrange(n + 8, n + 12) == le_bytes(row.kind as int, 4)
            &&& all.subrange(n + 12, n + 16) == le_bytes(row.mode as int, 4)
            &&& all.subrange(n + 16, n + 24) == le_bytes(row.len as int, 8)
            &&& all.subrange(n + 24, n + 56) == row.hash
            &&& all.subrange(n + 56, n + 64) == le_bytes(row.subtree_entries as int, 8)
            &&& all.subrange(n + 64, n + 72) == le_bytes(row.content_bytes as int, 8)
            &&& all.subrange(n + 72, all.len() as int) == behind
        }),
{
    let all = row_image(row) + behind;
    let n = row.path.len() as int;
    lemma_le_length(n, 8);
    lemma_le_length(row.kind as int, 4);
    lemma_le_length(row.mode as int, 4);
    lemma_le_length(row.len as int, 8);
    lemma_le_length(row.subtree_entries as int, 8);
    lemma_le_length(row.content_bytes as int, 8);
    assert(all.subrange(0, 8) =~= le_bytes(n, 8));
    assert(all.subrange(8, n + 8) =~= row.path);
    assert(all.subrange(n + 8, n + 12) =~= le_bytes(row.kind as int, 4));
    assert(all.subrange(n + 12, n + 16) =~= le_bytes(row.mode as int, 4));
    assert(all.subrange(n + 16, n + 24) =~= le_bytes(row.len as int, 8));
    assert(all.subrange(n + 24, n + 56) =~= row.hash);
    assert(all.subrange(n + 56, n + 64) =~= le_bytes(row.subtree_entries as int, 8));
    assert(all.subrange(n + 64, n + 72) =~= le_bytes(row.content_bytes as int, 8));
    assert(all.subrange(n + 72, all.len() as int) =~= behind);
}

proof fn lemma_row_injective(a: Row, b: Row, after_a: Seq<u8>, after_b: Seq<u8>)
    requires
        fits(a),
        fits(b),
        row_image(a) + after_a == row_image(b) + after_b,
    ensures
        a == b,
        after_a == after_b,
{
    lemma_row_parts(a, after_a);
    lemma_row_parts(b, after_b);
    lemma_le_limits();
    lemma_le_injective(a.path.len() as int, b.path.len() as int, 8);
    lemma_le_injective(a.kind as int, b.kind as int, 4);
    lemma_le_injective(a.mode as int, b.mode as int, 4);
    lemma_le_injective(a.len as int, b.len as int, 8);
    lemma_le_injective(a.subtree_entries as int, b.subtree_entries as int, 8);
    lemma_le_injective(a.content_bytes as int, b.content_bytes as int, 8);
    assert(a =~= b);
}

/// The first row comes first.
proof fn lemma_first_row_first(rows: Seq<Row>)
    requires
        rows.len() > 0,
    ensures
        row_images(rows) == row_image(rows[0]) + row_images(rows.drop_first()),
    decreases rows.len(),
{
    if rows.len() == 1 {
        assert(rows.drop_last() =~= Seq::<Row>::empty());
        assert(rows.drop_first() =~= Seq::<Row>::empty());
        assert(row_images(rows) =~= row_image(rows[0]) + row_images(rows.drop_first()));
    } else {
        let before = rows.drop_last();
        lemma_first_row_first(before);
        assert(before.drop_first() =~= rows.drop_first().drop_last());
        assert(rows.drop_first().last() == rows.last());
        assert(before[0] == rows[0]);
        assert(row_images(rows) =~= row_image(rows[0]) + (row_images(before.drop_first()) + row_image(rows.last())));
    }
}

proof fn lemma_rows_injective(a: Seq<Row>, b: Seq<Row>)
    requires
        a.len() == b.len(),
        forall|i: int| 0 <= i < a.len() ==> fits(#[trigger] a[i]),
        forall|i: int| 0 <= i < b.len() ==> fits(#[trigger] b[i]),
        row_images(a) == row_images(b),
    ensures
        a == b,
    decreases a.len(),
{
    if a.len() > 0 {
        let (x, y) = (a.drop_first(), b.drop_first());
        lemma_first_row_first(a);
        lemma_first_row_first(b);
        lemma_row_injective(a[0], b[0], row_images(x), row_images(y));
        assert forall|i: int| 0 <= i < x.len() implies fits(#[trigger] x[i]) by {
            assert(x[i] == a[i + 1]);
        }
        assert forall|i: int| 0 <= i < y.len() implies fits(#[trigger] y[i]) by {
            assert(y[i] == b[i + 1]);
        }
        lemma_rows_injective(x, y);
        assert forall|i: int| 0 <= i < a.len() implies a[i] == b[i] by {
            if i > 0 {
                assert(a[i] == x[i - 1] && b[i] == y[i - 1]);
            }
        }
    }
    assert(a =~= b);
}

/// The stored form of rows is read in one way only.
pub proof fn law_stored_rows_are_read_back(rows: Seq<Row>)
    requires
        are_rows(rows),
    ensures
        bincode_rows(bincode_image(rows)) == Some(rows),
{
    let bytes = bincode_image(rows);
    assert(stores(bytes, rows));
    let read = choose|rows: Seq<Row>| stores(bytes, rows);
    assert(stores(bytes, read));
    lemma_le_limits();
    lemma_le_length(rows.len() as int, 8);
    lemma_le_length(read.len() as int, 8);
    assert(bytes.subrange(0, 8) =~= le_bytes(rows.len() as int, 8));
    assert(bytes.subrange(0, 8) =~= le_bytes(read.len() as int, 8));
    lemma_le_injective(rows.len() as int, read.len() as int, 8);
    assert(bytes.subrange(8, bytes.len() as int) =~= row_images(rows));
    assert(bytes.subrange(8, bytes.len() as int) =~= row_images(read));
    lemma_rows_injective(rows, read);
}

/// Rows take as many bytes as their stored form has.
proof fn lemma_image_length(rows: Seq<Row>)
    requires
        forall|i: int| 0 <= i < rows.len() ==> fits(#[trigger] rows[i]),
    ensures
        row_images(rows).len() + 8 == stored_size(rows),
        bincode_image(rows).len() == stored_size(rows),
    decreases rows.len(),
{
    lemma_le_length(rows.len() as int, 8);
    if rows.len() > 0 {
        let before = rows.drop_last();
        assert forall|i: int| 0 <= i < before.len() implies fits(#[trigger] before[i]) by {
            assert(before[i] == rows[i]);
        }
        lemma_image_length(before);
        assert(fits(rows[rows.len() - 1]));
        lemma_row_parts(rows.last(), Seq::empty());
    }
}

/// Rows as they stand in memory can be stored.
proof fn lemma_are_rows(rows: &Vec<StoredRow>)
    ensures
        are_rows(rows_of(rows@)),
{
    let held = rows_of(rows@);
    assert(rows@.len() == rows.len());
    assert forall|i: int| 0 <= i < held.len() implies fits(#[trigger] held[i]) by {
        assert(held[i] == row_of(rows@[i]));
        assert(rows@[i].0@.len() == rows@[i].0.len());
        assert(rows@[i].4@.len() == 32);
    }
}

/// Calls `deserialize` of bincode's options with fixed-width integers, a limit
/// and trailing bytes refused. Claimed of it: it reads the rows whose stored form
/// the bytes are, and refuses bytes that are no stored form. The limit bounds
/// readers; a slice has none.
#[verifier::external_body]
fn decode_rows(bytes: &[u8], limit: u64) -> (rows: Option<Vec<StoredRow>>)
    ensures
        match rows {
            Some(read) => bytes@ == bincode_image(rows_of(read@)),
            None => forall|held: Seq<Row>| !#[trigger] stores(bytes@, held),
        },
{
    bincode::DefaultOptions::new()
        .with_fixint_encoding()
        .with_limit(limit)
        .reject_trailing_bytes()
        .deserialize(bytes)
        .ok()
}

/// Calls `serialize` of bincode's options with fixed-width integers and a
/// limit. Claimed of it: it succeeds where the stored form fits in the limit, and
/// the bytes are that form.
#[verifier::external_body]
fn encode_rows(rows: &Vec<StoredRow>, limit: u64) -> (bytes: Option<Vec<u8>>)
    ensures
        bytes is Some <==> bincode_image(rows_of(rows@)).len() <= limit,
        bytes matches Some(made) ==> made@ == bincode_image(rows_of(rows@)),
{
    bincode::DefaultOptions::new()
        .with_fixint_encoding()
        .with_limit(limit)
        .reject_trailing_bytes()
        .serialize(rows)
        .ok()
}

/// The number that stands for a kind in a row.
pub open spec fn stored_kind(kind: SnapshotEntryKind) -> u32 {
    match kind {
        SnapshotEntryKind::File => 0u32,
        SnapshotEntryKind::Directory => 1u32,
        SnapshotEntryKind::Symlink => 2u32,
    }
}

/// The kind that a number in a row stands for.
pub open spec fn kind_of(stored: u32) -> SnapshotEntryKind {
    if stored == 0 {
        SnapshotEntryKind::File
    } else if stored == 1 {
        SnapshotEntryKind::Directory
    } else {
        SnapshotEntryKind::Symlink
    }
}

/// The row of an entry.
pub open spec fn row_for(entry: (Names, IndexNode)) -> Row {
    Row {
        path: path::joined(entry.0),
        kind: stored_kind(entry.1.kind),
        mode: entry.1.mode,
        len: entry.1.len,
        hash: entry.1.hash,
        subtree_entries: entry.1.subtree_entries,
        content_bytes: entry.1.content_bytes,
    }
}

/// The rows of an index.
pub open spec fn rows_for(nodes: Nodes) -> Seq<Row> {
    Seq::new(nodes.len(), |i: int| row_for(nodes[i]))
}

/// The node of a row.
pub open spec fn node_of(row: Row) -> IndexNode {
    IndexNode {
        kind: kind_of(row.kind),
        mode: row.mode,
        len: row.len,
        hash: row.hash,
        subtree_entries: row.subtree_entries,
        content_bytes: row.content_bytes,
    }
}

/// Every kind that some rows name exists.
pub open spec fn kinds_exist(rows: Seq<Row>) -> bool {
    forall|i: int| 0 <= i < rows.len() ==> (#[trigger] rows[i]).kind <= 2
}

/// The bytes that the paths of some rows take.
pub open spec fn row_path_bytes(rows: Seq<Row>) -> int
    decreases rows.len(),
{
    if rows.len() == 0 {
        0
    } else {
        row_path_bytes(rows.drop_last()) + rows.last().path.len()
    }
}

/// Whether a path starts with the piece `.`.
pub open spec fn starts_with_dot(bytes: Seq<u8>) -> bool {
    path::pieces(bytes)[0] == path::dot()
}

/// What is wrong with the path of one row, given the rows before it.
pub open spec fn row_fault(rows: Seq<Row>, i: int) -> Option<DescriptorFault> {
    if path::relative_names(rows[i].path) is None {
        Some(DescriptorFault::IndexPath { at: i as usize })
    } else if starts_with_dot(rows[i].path) {
        Some(DescriptorFault::IndexPathNotNormalized { at: i as usize })
    } else if row_path_bytes(rows.take(i + 1)) > DEFAULT_SCAN_PATH_BYTE_BUDGET {
        Some(DescriptorFault::IndexPathBudget)
    } else if exists|j: int|
        0 <= j < i && path::relative_names((#[trigger] rows[j]).path) == path::relative_names(
            rows[i].path,
        ) {
        Some(DescriptorFault::IndexDuplicatePath { at: i as usize })
    } else {
        None
    }
}

/// What is wrong with the first row, among the first `count`, that has a fault.
pub open spec fn first_row_fault(rows: Seq<Row>, count: nat) -> Option<DescriptorFault>
    decreases count,
{
    if count == 0 {
        None
    } else {
        match first_row_fault(rows, (count - 1) as nat) {
            Some(fault) => Some(fault),
            None => row_fault(rows, count - 1),
        }
    }
}

/// What rows without fault map each path to.
pub open spec fn row_map(rows: Seq<Row>) -> Map<Names, IndexNode>
    decreases rows.len(),
{
    if rows.len() == 0 {
        Map::empty()
    } else {
        row_map(rows.drop_last()).insert(
            path::relative_names(rows.last().path)->0,
            node_of(rows.last()),
        )
    }
}

/// What is wrong with stored bytes, before the index itself is looked at.
pub open spec fn stored_fault(bytes: Seq<u8>) -> Option<DescriptorFault> {
    if bytes.len() > MAX_INDEX_BYTES {
        Some(DescriptorFault::IndexTooLarge)
    } else {
        match bincode_rows(bytes) {
            None => Some(DescriptorFault::IndexUnreadable),
            Some(rows) => if !kinds_exist(rows) {
                Some(DescriptorFault::IndexUnreadable)
            } else if rows.len() > DEFAULT_SCAN_ENTRY_BUDGET {
                Some(DescriptorFault::IndexEntryBudget)
            } else {
                first_row_fault(rows, rows.len())
            },
        }
    }
}

/// The nodes that bytes hold: their rows in the order of the paths.
pub open spec fn holds_nodes(bytes: Seq<u8>, nodes: Nodes) -> bool {
    &&& stored_fault(bytes) is None
    &&& path_map::in_order(nodes)
    &&& path_map::entry_map(nodes) == row_map(bincode_rows(bytes)->0)
}

proof fn lemma_first_row_fault_stays(rows: Seq<Row>, few: nat, many: nat)
    requires
        few <= many,
        first_row_fault(rows, few) is Some,
    ensures
        first_row_fault(rows, many) == first_row_fault(rows, few),
    decreases many,
{
    if few < many {
        lemma_first_row_fault_stays(rows, few, (many - 1) as nat);
    }
}

proof fn lemma_no_fault_before(rows: Seq<Row>, count: nat)
    requires
        forall|i: int| 0 <= i < count ==> #[trigger] row_fault(rows, i) is None,
    ensures
        first_row_fault(rows, count) is None,
    decreases count,
{
    if count > 0 {
        lemma_no_fault_before(rows, (count - 1) as nat);
        assert(row_fault(rows, count - 1) is None);
    }
}

/// The paths that rows map are those that they name.
proof fn lemma_row_map_paths(rows: Seq<Row>)
    requires
        forall|i: int| 0 <= i < rows.len() ==> path::relative_names((#[trigger] rows[i]).path) is Some,
    ensures
        forall|p: Names|
            #[trigger] row_map(rows).dom().contains(p) <==> exists|j: int|
                0 <= j < rows.len() && path::relative_names((#[trigger] rows[j]).path) == Some(p),
    decreases rows.len(),
{
    if rows.len() > 0 {
        let rest = rows.drop_last();
        assert forall|i: int| 0 <= i < rest.len() implies path::relative_names(
            (#[trigger] rest[i]).path,
        ) is Some by {
            assert(rest[i] == rows[i]);
        }
        lemma_row_map_paths(rest);
        assert(path::relative_names(rows[rows.len() - 1].path) is Some);
        assert forall|p: Names|
            #[trigger] row_map(rows).dom().contains(p) <==> exists|j: int|
                0 <= j < rows.len() && path::relative_names((#[trigger] rows[j]).path) == Some(p) by {
            {
                if row_map(rest).dom().contains(p) {
                    let j = choose|j: int|
                        0 <= j < rest.len() && path::relative_names((#[trigger] rest[j]).path) == Some(p);
                    assert(rows[j] == rest[j]);
                }
                if exists|j: int|
                    0 <= j < rows.len() && path::relative_names((#[trigger] rows[j]).path) == Some(p) {
                    let j = choose|j: int|
                        0 <= j < rows.len() && path::relative_names((#[trigger] rows[j]).path) == Some(p);
                    if j < rows.len() - 1 {
                        assert(rest[j] == rows[j]);
                    }
                }
            }
        }
    }
}

/// The rows of the first entries are the first rows.
proof fn lemma_rows_of_prefix(nodes: Nodes, count: int)
    requires
        0 <= count <= nodes.len(),
    ensures
        rows_for(nodes).take(count) == rows_for(nodes.take(count)),
{
    assert(rows_for(nodes).take(count) =~= rows_for(nodes.take(count)));
}

proof fn lemma_row_bytes_are_path_bytes(nodes: Nodes)
    ensures
        row_path_bytes(rows_for(nodes)) == index::path_bytes(nodes),
    decreases nodes.len(),
{
    if nodes.len() > 0 {
        assert(rows_for(nodes).drop_last() =~= rows_for(nodes.drop_last()));
        lemma_row_bytes_are_path_bytes(nodes.drop_last());
    }
}

proof fn lemma_stored_size(nodes: Nodes)
    ensures
        stored_size(rows_for(nodes)) == 8 + 72 * nodes.len() + index::path_bytes(nodes),
    decreases nodes.len(),
{
    if nodes.len() > 0 {
        assert(rows_for(nodes).drop_last() =~= rows_for(nodes.drop_last()));
        lemma_stored_size(nodes.drop_last());
    }
}

/// The entries before a sound one are within the budget for paths.
proof fn lemma_sound_path_bytes(nodes: Nodes, count: int)
    requires
        index::structure_fault(nodes) is None,
        0 <= count <= nodes.len(),
    ensures
        index::path_bytes(nodes.take(count)) <= DEFAULT_SCAN_PATH_BYTE_BUDGET,
{
    if count > 0 {
        lemma_no_entry_fault(nodes, nodes.len(), count - 1);
    }
}

proof fn lemma_no_entry_fault(nodes: Nodes, count: nat, i: int)
    requires
        index::first_fault(nodes, count) is None,
        0 <= i < count,
    ensures
        index::entry_fault(nodes, i) is None,
    decreases count,
{
    if i < count - 1 {
        lemma_no_entry_fault(nodes, (count - 1) as nat, i);
    }
}

proof fn lemma_row_map_of_nodes(nodes: Nodes)
    requires
        path_map::in_order(nodes),
        forall|i: int| 0 <= i < nodes.len() ==> path::valid_names((#[trigger] nodes[i]).0),
    ensures
        row_map(rows_for(nodes)) == path_map::entry_map(nodes),
    decreases nodes.len(),
{
    if nodes.len() > 0 {
        let rest = nodes.drop_last();
        path_map::lemma_drop_last_in_order(nodes);
        assert forall|i: int| 0 <= i < rest.len() implies path::valid_names((#[trigger] rest[i]).0) by {
            assert(rest[i] == nodes[i]);
        }
        lemma_row_map_of_nodes(rest);
        assert(rows_for(nodes).drop_last() =~= rows_for(rest));
        let last = nodes[nodes.len() - 1];
        assert(path::valid_names(last.0));
        path::law_joined_reads_back(last.0);
        assert(node_of(row_for(last)) =~= last.1);
        assert forall|i: int| 0 <= i < rest.len() implies path::path_before(#[trigger] rest[i].0, last.0) by {
            assert(path::path_before(nodes[i].0, nodes[nodes.len() - 1].0));
        }
        path_map::lemma_insert(rest, rest.len() as int, last.0, last.1);
        assert(rest.insert(rest.len() as int, last) =~= nodes);
    } else {
        assert(row_map(rows_for(nodes)) =~= path_map::entry_map(nodes));
    }
}

/// Storing a sound index and reading the bytes back gives the same nodes.
pub proof fn law_stored_index_reads_back(bytes: Seq<u8>, nodes: Nodes)
    requires
        path_map::in_order(nodes),
        forall|i: int| 0 <= i < nodes.len() ==> path::valid_names((#[trigger] nodes[i]).0),
        index::structure_fault(nodes) is None,
        bytes.len() <= MAX_INDEX_BYTES,
        bincode_rows(bytes) == Some(rows_for(nodes)),
    ensures
        holds_nodes(bytes, nodes),
{
    let rows = rows_for(nodes);
    assert forall|i: int| 0 <= i < rows.len() implies #[trigger] row_fault(rows, i) is None by {
        let names = nodes[i].0;
        assert(path::valid_names(names));
        path::law_joined_reads_back(names);
        assert(!starts_with_dot(rows[i].path)) by {
            if names.len() > 0 {
                path::lemma_pieces_of_joined(names);
                assert(path::valid_name(names[0]));
            } else {
                assert(path::pieces(path::joined(names))[0].len() == 0);
            }
        }
        lemma_rows_of_prefix(nodes, i + 1);
        lemma_row_bytes_are_path_bytes(nodes.take(i + 1));
        lemma_sound_path_bytes(nodes, i + 1);
        assert forall|j: int| 0 <= j < i implies path::relative_names((#[trigger] rows[j]).path)
            != path::relative_names(rows[i].path) by {
            assert(path::valid_names(nodes[j].0));
            path::law_joined_reads_back(nodes[j].0);
            if nodes[j].0 == names {
                path_map::lemma_place_unique(nodes, i, j);
            }
        }
    }
    lemma_no_fault_before(rows, rows.len());
    assert(kinds_exist(rows));
    lemma_row_map_of_nodes(nodes);
}

/// Stored bytes hold one list of nodes.
pub proof fn law_stored_bytes_hold_one_index(bytes: Seq<u8>, a: Nodes, b: Nodes)
    requires
        holds_nodes(bytes, a),
        holds_nodes(bytes, b),
    ensures
        a == b,
{
    path_map::lemma_map_lists_once(a, b);
}

/// What reading stored bytes gives: the nodes that they hold where these are a
/// sound index whose directories follow from their children.
pub open spec fn is_load_of(bytes: Seq<u8>, result: Result<SnapshotIndex, SnapshotError>) -> bool {
    match result {
        Ok(loaded) => {
            &&& loaded.wf()
            &&& holds_nodes(bytes, loaded.nodes())
            &&& index::structure_fault(loaded.nodes()) is None
            &&& index::consistent(loaded.nodes())
        },
        Err(SnapshotError::InvalidDescriptor(fault)) => {
            ||| stored_fault(bytes) == Some(fault)
            ||| exists|nodes: Nodes| #[trigger]
                holds_nodes(bytes, nodes) && index::structure_fault(nodes) == Some(fault)
            ||| exists|nodes: Nodes| #[trigger]
                holds_nodes(bytes, nodes) && index::structure_fault(nodes) is None
                    && fault is IndexDirectoryNode && !index::consistent(nodes)
        },
        Err(SnapshotError::LimitExceeded(fault)) => {
            &&& fault == LimitFault::IndexTotals
            &&& exists|nodes: Nodes| #[trigger]
                holds_nodes(bytes, nodes) && index::structure_fault(nodes) is None && (forall|filled: Nodes|
                    !index::completes(nodes, filled))
        },
        Err(_) => false,
    }
}

/// A sound index whose directories follow from their children, once stored, is
/// read back as it was.
pub proof fn law_load_gives_back_what_was_written(
    bytes: Seq<u8>,
    written: Nodes,
    result: Result<SnapshotIndex, SnapshotError>,
)
    requires
        holds_nodes(bytes, written),
        index::structure_fault(written) is None,
        index::consistent(written),
        is_load_of(bytes, result),
    ensures
        result matches Ok(loaded) && loaded.nodes() == written,
{
    match result {
        Ok(loaded) => {
            law_stored_bytes_hold_one_index(bytes, loaded.nodes(), written);
        },
        Err(error) => {
            assert forall|nodes: Nodes| #[trigger] holds_nodes(bytes, nodes) implies nodes == written by {
                law_stored_bytes_hold_one_index(bytes, nodes, written);
            }
            index::lemma_same_tree_reflexive(written);
            assert(index::completes(written, written));
        },
    }
}

impl SnapshotIndex {
    /// The stored form of a sound index.
    pub fn write(&self) -> (result: Result<Vec<u8>, SnapshotError>)
        requires
            self.wf(),
        ensures
            match result {
                Ok(bytes) => {
                    &&& index::structure_fault(self.nodes()) is None
                    &&& bytes@ == bincode_image(rows_for(self.nodes()))
                    &&& holds_nodes(bytes@, self.nodes())
                },
                Err(error) => index::structure_fault(self.nodes()) matches Some(fault) && error
                    == SnapshotError::InvalidDescriptor(fault),
            },
    {
        match self.validate_structure() {
            Ok(_) => {},
            Err(error) => {
                return Err(error);
            },
        }
        let ghost nodes = self.nodes();
        let mut rows: Vec<StoredRow> = Vec::new();
        let mut i: usize = 0;
        while i < self.entries.len()
            invariant
                self.wf(),
                nodes == self.nodes(),
                i <= nodes.len(),
                rows@.len() == i,
                rows_of(rows@) == rows_for(nodes.take(i as int)),
                forall|j: int| 0 <= j < i ==> path::valid_names((#[trigger] nodes[j]).0),
            decreases nodes.len() - i,
        {
            let entry = *self.entries.value_at(i);
            let bytes = self.entries.path_at(i).to_bytes();
            let kind: u32 = match entry.kind {
                SnapshotEntryKind::File => 0,
                SnapshotEntryKind::Directory => 1,
                SnapshotEntryKind::Symlink => 2,
            };
            let ghost before = rows@;
            let row: StoredRow = (
                bytes,
                kind,
                entry.mode,
                entry.len,
                entry.hash,
                entry.subtree_entries,
                entry.content_bytes,
            );
            let ghost made = row;
            rows.push(row);
            proof {
                assert(rows_of(rows@) =~= rows_of(before).push(row_of(made)));
                assert(row_of(made) =~= row_for(nodes[i as int]));
                assert(rows_for(nodes.take(i as int + 1)) =~= rows_for(nodes.take(i as int)).push(
                    row_for(nodes[i as int]),
                ));
            }
            i = i + 1;
        }
        proof {
            assert(nodes.take(i as int) =~= nodes);
            lemma_stored_size(nodes);
            lemma_sound_path_bytes(nodes, nodes.len() as int);
            lemma_are_rows(&rows);
            lemma_image_length(rows_of(rows@));
            law_stored_rows_are_read_back(rows_of(rows@));
        }
        match encode_rows(&rows, MAX_INDEX_BYTES) {
            Some(bytes) => {
                proof {
                    law_stored_index_reads_back(bytes@, nodes);
                }
                Ok(bytes)
            },
            None => Err(SnapshotError::Operation(Step::Serialize)),
        }
    }

    /// Reads a stored index: its rows, its structure and its directory nodes
    /// are checked.
    pub fn load(bytes: &[u8]) -> (result: Result<SnapshotIndex, SnapshotError>)
        ensures
            is_load_of(bytes@, result),
    {
        if bytes.len() as u64 > MAX_INDEX_BYTES {
            return Err(SnapshotError::InvalidDescriptor(DescriptorFault::IndexTooLarge));
        }
        let stored = match decode_rows(bytes, MAX_INDEX_BYTES) {
            Some(rows) => rows,
            None => {
                return Err(SnapshotError::InvalidDescriptor(DescriptorFault::IndexUnreadable));
            },
        };
        let ghost rows = rows_of(stored@);
        proof {
            lemma_are_rows(&stored);
            law_stored_rows_are_read_back(rows);
        }
        let mut k: usize = 0;
        while k < stored.len()
            invariant
                k <= stored@.len(),
                rows == rows_of(stored@),
                bytes@.len() <= MAX_INDEX_BYTES,
                bincode_rows(bytes@) == Some(rows),
                forall|j: int| 0 <= j < k ==> (#[trigger] rows[j]).kind <= 2,
            decreases stored@.len() - k,
        {
            if stored[k].1 > 2 {
                proof {
                    assert(rows[k as int].kind > 2);
                    assert(!kinds_exist(rows));
                }
                return Err(SnapshotError::InvalidDescriptor(DescriptorFault::IndexUnreadable));
            }
            k = k + 1;
        }
        if stored.len() > DEFAULT_SCAN_ENTRY_BUDGET {
            return Err(SnapshotError::InvalidDescriptor(DescriptorFault::IndexEntryBudget));
        }
        let mut entries: PathMap<SnapshotIndexEntry> = PathMap::new();
        let mut total: usize = 0;
        let mut i: usize = 0;
        proof {
            assert(rows.take(0) =~= Seq::<Row>::empty());
        }
        while i < stored.len()
            invariant
                i <= stored@.len() <= DEFAULT_SCAN_ENTRY_BUDGET,
                rows == rows_of(stored@),
                bytes@.len() <= MAX_INDEX_BYTES,
                bincode_rows(bytes@) == Some(rows),
                kinds_exist(rows),
                entries.wf(),
                entries@ == row_map(rows.take(i as int)),
                total == row_path_bytes(rows.take(i as int)),
                total <= DEFAULT_SCAN_PATH_BYTE_BUDGET,
                first_row_fault(rows, i as nat) is None,
                forall|j: int|
                    0 <= j < i ==> path::relative_names((#[trigger] rows[j]).path) is Some,
            decreases stored@.len() - i,
        {
            let ghost row = rows[i as int];
            proof {
                assert(rows.take(i as int + 1).drop_last() =~= rows.take(i as int));
                assert(rows.take(i as int + 1).last() == row);
                assert(row == row_of(stored@[i as int]));
                assert(first_row_fault(rows, (i + 1) as nat) == row_fault(rows, i as int));
                if row_fault(rows, i as int) is Some {
                    lemma_first_row_fault_stays(rows, (i + 1) as nat, rows.len());
                }
                assert forall|j: int| 0 <= j < i implies path::relative_names(
                    (#[trigger] rows.take(i as int)[j]).path,
                ) is Some by {
                    assert(rows.take(i as int)[j] == rows[j]);
                }
                lemma_row_map_paths(rows.take(i as int));
            }
            let raw = stored[i].0.as_slice();
            let key = match RelPath::parse(raw) {
                Some(parsed) => parsed,
                None => {
                    return Err(SnapshotError::InvalidDescriptor(DescriptorFault::IndexPath { at: i }));
                },
            };
            if path::leads_with_dot(raw) {
                return Err(
                    SnapshotError::InvalidDescriptor(DescriptorFault::IndexPathNotNormalized { at: i }),
                );
            }
            if raw.len() > DEFAULT_SCAN_PATH_BYTE_BUDGET - total {
                return Err(SnapshotError::InvalidDescriptor(DescriptorFault::IndexPathBudget));
            }
            total = total + raw.len();
            let kind = if stored[i].1 == 0 {
                SnapshotEntryKind::File
            } else if stored[i].1 == 1 {
                SnapshotEntryKind::Directory
            } else {
                SnapshotEntryKind::Symlink
            };
            let entry = SnapshotIndexEntry {
                kind,
                mode: stored[i].2,
                len: stored[i].3,
                hash: stored[i].4,
                subtree_entries: stored[i].5,
                content_bytes: stored[i].6,
            };
            proof {
                assert(entry@ =~= node_of(row));
            }
            let ghost name = key@;
            let ghost known = entries@;
            if entries.insert(key, entry) {
                proof {
                    assert(known.dom().contains(name));
                    let j = choose|j: int|
                        0 <= j < i && path::relative_names((#[trigger] rows.take(i as int)[j]).path) == Some(
                            name,
                        );
                    assert(path::relative_names(rows[j].path) == path::relative_names(row.path));
                }
                return Err(
                    SnapshotError::InvalidDescriptor(DescriptorFault::IndexDuplicatePath { at: i }),
                );
            }
            proof {
                assert forall|j: int| 0 <= j < i implies path::relative_names((#[trigger] rows[j]).path)
                    != path::relative_names(row.path) by {
                    assert(rows.take(i as int)[j] == rows[j]);
                }
            }
            i = i + 1;
        }
        proof {
            assert(rows.take(i as int) =~= rows);
        }
        let loaded = SnapshotIndex { entries };
        proof {
            assert(holds_nodes(bytes@, loaded.nodes()));
        }
        match loaded.validate_structure() {
            Ok(_) => {},
            Err(error) => {
                return Err(error);
            },
        }
        match loaded.validate_directory_nodes() {
            Ok(_) => Ok(loaded),
            Err(error) => {
                proof {
                    if error is InvalidDescriptor {
                        let (filled, at): (Nodes, int) = choose|filled: Nodes, at: int|
                            {
                                &&& #[trigger] index::completes(loaded.nodes(), filled)
                                &&& error->InvalidDescriptor_0 == DescriptorFault::IndexDirectoryNode {
                                    at: at as usize,
                                }
                                &&& 0 <= at < filled.len()
                                &&& #[trigger] filled[at] != loaded.nodes()[at]
                                &&& filled.take(at) == loaded.nodes().take(at)
                            };
                        if index::consistent(loaded.nodes()) {
                            index::lemma_same_tree_reflexive(loaded.nodes());
                            index::law_tree_determines_index(loaded.nodes(), filled, loaded.nodes());
                        }
                    }
                }
                Err(error)
            },
        }
    }
}

proof fn lemma_rows_without_fault(rows: Seq<Row>, count: nat)
    requires
        count <= rows.len(),
    ensures
        first_row_fault(rows, count) is None <==> forall|i: int| 0 <= i < count ==> row_fault(rows, i) is None,
    decreases count,
{
    if count > 0 {
        lemma_rows_without_fault(rows, (count - 1) as nat);
    }
}

/// Bytes hold an index only where they are no more than allowed, and their rows are no more
/// than an index may hold, of kinds that exist, each under a relative path that stays below
/// the root and does not begin with a dot of its own, and no path twice.
pub proof fn law_stored_indexes_name_paths_once(bytes: Seq<u8>)
    requires
        stored_fault(bytes) is None,
    ensures
        bytes.len() <= 67_108_864,
        bincode_rows(bytes) matches Some(rows) && rows.len() <= 100_000 && (forall|i: int|
            0 <= i < rows.len() ==> {
                &&& (#[trigger] rows[i]).kind <= 2
                &&& path::relative_names(rows[i].path) is Some
                &&& path::pieces(rows[i].path)[0] != seq![0x2eu8]
            }) && (forall|i: int, j: int|
            0 <= i < j < rows.len() ==> path::relative_names((#[trigger] rows[i]).path) != path::relative_names(
                (#[trigger] rows[j]).path,
            )),
{
    let rows = bincode_rows(bytes)->0;
    lemma_rows_without_fault(rows, rows.len());
    assert forall|i: int| 0 <= i < rows.len() implies ({
        &&& (#[trigger] rows[i]).kind <= 2
        &&& path::relative_names(rows[i].path) is Some
        &&& path::pieces(rows[i].path)[0] != seq![0x2eu8]
    }) by {
        assert(row_fault(rows, i) is None);
        assert(path::dot() =~= seq![0x2eu8]);
    }
    assert forall|i: int, j: int| 0 <= i < j < rows.len() implies path::relative_names((#[trigger] rows[i]).path)
        != path::relative_names((#[trigger] rows[j]).path) by {
        assert(row_fault(rows, j) is None);
    }
}

/// The stored form of a row: the length of its path and the path, then its kind, mode,
/// length, hash and totals, each number with its lowest byte first.
pub proof fn law_rows_are_stored_in_order(row: Row)
    requires
        fits(row),
    ensures
        ({
            let image = row_image(row);
            let n = row.path.len() as int;
            &&& image.len() == n + 72
            &&& image.subrange(8, 8 + n) == row.path
            &&& image[8 + n] == row.kind as int % 256
            &&& image[12 + n] == row.mode as int % 256
            &&& image[13 + n] == row.mode as int / 256 % 256
            &&& image[16 + n] == row.len as int % 256
            &&& image.subrange(24 + n, 56 + n) == row.hash
            &&& image[56 + n] == row.subtree_entries as int % 256
            &&& image[64 + n] == row.content_bytes as int % 256
        }),
{
    reveal_with_fuel(le_bytes, 9);
    let image = row_image(row);
    let n = row.path.len() as int;
    assert(image.subrange(8, 8 + n) =~= row.path);
    assert(image.subrange(24 + n, 56 + n) =~= row.hash);
}

} // verus!
