//! Bounded deltas between snapshots and their conflict-checked application.

use crate::error::{DeltaRefusal, LimitFault, PathFault, SnapshotError};
use crate::path;
use crate::path::{Names, RelPath};
use crate::path_map::PathMap;
use crate::snapshot::assembly;
use crate::snapshot::compare;
use crate::snapshot::compare::sorted_paths;
use crate::snapshot::diff::SnapshotChange;
use crate::snapshot::{EntryView, SnapshotChangeKind, SnapshotEntry, SnapshotEntryKind};
use vstd::prelude::*;

verus! {

/// The most changed paths of one delta, unless told otherwise.
pub const DEFAULT_DELTA_PATH_LIMIT: usize = 4096;

/// The most replacement bytes of one delta, unless told otherwise.
pub const DEFAULT_DELTA_BYTE_LIMIT: u64 = 268_435_456;

/// The most bytes of content that validating one delta reads, unless told
/// otherwise.
pub const DEFAULT_COMPARE_BYTE_LIMIT: u64 = 1_073_741_824;

/// Hard budgets enforced while preparing and validating a snapshot delta.
#[derive(Clone, Copy, Debug, PartialEq, Eq, Structural)]
pub struct SnapshotDeltaLimits {
    pub max_changed_paths: usize,
    pub max_changed_bytes: u64,
    pub max_compared_bytes: u64,
}

impl Default for SnapshotDeltaLimits {
    fn default() -> (limits: Self)
        ensures
            limits.max_changed_paths == DEFAULT_DELTA_PATH_LIMIT,
            limits.max_changed_bytes == DEFAULT_DELTA_BYTE_LIMIT,
            limits.max_compared_bytes == DEFAULT_COMPARE_BYTE_LIMIT,
    {
        SnapshotDeltaLimits {
            max_changed_paths: DEFAULT_DELTA_PATH_LIMIT,
            max_changed_bytes: DEFAULT_DELTA_BYTE_LIMIT,
            max_compared_bytes: DEFAULT_COMPARE_BYTE_LIMIT,
        }
    }
}

/// Generic filesystem policy applied before a delta can touch a destination.
#[derive(Debug)]
pub struct SnapshotDeltaPolicy {
    pub allow_symlinks: bool,
    pub protected_paths: Vec<Vec<u8>>,
}

impl Default for SnapshotDeltaPolicy {
    fn default() -> (policy: Self)
        ensures
            policy.allow_symlinks,
            policy.protected_paths@.len() == 0,
    {
        SnapshotDeltaPolicy { allow_symlinks: true, protected_paths: Vec::new() }
    }
}

/// Whether destination validation expects an untouched base or resumes an
/// earlier apply.
#[derive(Clone, Copy, Debug, PartialEq, Eq, Structural)]
pub enum SnapshotDeltaApplyMode {
    Initial,
    Resume,
}

/// Complete bounded summary of one immutable snapshot delta.
#[derive(Clone, Copy, Debug, PartialEq, Eq, Structural)]
pub struct SnapshotDeltaSummary {
    pub changed_paths: usize,
    pub changed_bytes: u64,
}

/// One change of a delta with the entries at its two ends.
pub struct DeltaEntry {
    pub change: SnapshotChange,
    pub before: Option<SnapshotEntry>,
    pub after: Option<SnapshotEntry>,
}

/// What one change of a delta says.
#[verifier::ext_equal]
pub struct DeltaView {
    pub path: Names,
    pub change: SnapshotChangeKind,
    pub before: Option<EntryView>,
    pub after: Option<EntryView>,
}

/// What an optional entry says.
pub open spec fn entry_of(entry: Option<SnapshotEntry>) -> Option<EntryView> {
    match entry {
        Some(held) => Some(held@),
        None => None,
    }
}

impl View for DeltaEntry {
    type V = DeltaView;

    open spec fn view(&self) -> DeltaView {
        DeltaView {
            path: self.change.path@,
            change: self.change.kind,
            before: entry_of(self.before),
            after: entry_of(self.after),
        }
    }
}

/// What the changes of a delta say.
pub open spec fn delta_views(entries: Seq<DeltaEntry>) -> Seq<DeltaView> {
    Seq::new(entries.len(), |i: int| entries[i]@)
}

/// Which ends of a delta have an entry at a changed path.
pub fn change_sides(kind: SnapshotChangeKind) -> (sides: (bool, bool))
    ensures
        sides.0 == (kind !is Added),
        sides.1 == (kind !is Deleted),
{
    match kind {
        SnapshotChangeKind::Added => (false, true),
        SnapshotChangeKind::Deleted => (true, false),
        SnapshotChangeKind::Modified
        | SnapshotChangeKind::TypeChanged
        | SnapshotChangeKind::ModeChanged
        | SnapshotChangeKind::SymlinkTargetChanged => (true, true),
    }
}

/// The bytes that putting an entry in place writes.
pub open spec fn bytes_to_write(entry: EntryView) -> int {
    match entry.kind {
        SnapshotEntryKind::File => entry.len as int,
        SnapshotEntryKind::Symlink => match entry.symlink_target {
            Some(target) => target.len() as int,
            None => 0,
        },
        SnapshotEntryKind::Directory => 0,
    }
}

/// The bytes that putting an entry in place writes.
pub fn replacement_bytes(entry: &SnapshotEntry) -> (bytes: u64)
    ensures
        bytes == bytes_to_write(entry@),
{
    match entry.kind {
        SnapshotEntryKind::File => entry.len,
        SnapshotEntryKind::Symlink => match &entry.symlink_target {
            Some(target) => target.len() as u64,
            None => 0,
        },
        SnapshotEntryKind::Directory => 0,
    }
}

/// The number of names of a path.
pub fn path_depth(at: &RelPath) -> (depth: usize)
    ensures
        depth == at@.len(),
{
    at.depth()
}

/// Puts protected paths in normal form: in order, each once, none the root.
pub fn prepare_protected_paths(paths: &Vec<Vec<u8>>) -> (result: Result<Vec<RelPath>, SnapshotError>)
    ensures
        match result {
            Ok(protected) => {
                &&& assembly::all_relative(paths@)
                &&& !assembly::all_names(paths@).contains(Names::empty())
                &&& compare::paths_in_order(path::path_views(protected@))
                &&& forall|p: Names|
                    #[trigger] path::path_views(protected@).contains(p) <==> assembly::all_names(
                        paths@,
                    ).contains(p)
            },
            Err(error) => if !assembly::all_relative(paths@) {
                error == SnapshotError::InvalidPath(PathFault::NotRelative)
            } else {
                &&& assembly::all_names(paths@).contains(Names::empty())
                &&& error == SnapshotError::InvalidPath(PathFault::Root)
            },
        },
{
    let ghost names = assembly::all_names(paths@);
    let mut sorted: PathMap<u32> = PathMap::new();
    let mut has_root = false;
    let mut i: usize = 0;
    while i < paths.len()
        invariant
            i <= paths@.len(),
            names == assembly::all_names(paths@),
            sorted.wf(),
            forall|j: int| 0 <= j < i ==> path::relative_names((#[trigger] paths@[j])@) is Some,
            forall|p: Names|
                #[trigger] sorted@.dom().contains(p) <==> names.take(i as int).contains(p),
            has_root == names.take(i as int).contains(Names::empty()),
        decreases paths@.len() - i,
    {
        match RelPath::parse(paths[i].as_slice()) {
            Some(parsed) => {
                proof {
                    assert(names.take(i as int + 1) =~= names.take(i as int).push(parsed@));
                    assert forall|p: Names|
                        #[trigger] names.take(i as int + 1).contains(p) <==> (names.take(i as int).contains(p)
                            || p == parsed@) by {
                        compare::lemma_push_contains(names.take(i as int), parsed@, p);
                    }
                    if parsed@.len() == 0 {
                        assert(parsed@ =~= Names::empty());
                    }
                }
                if parsed.is_root() {
                    has_root = true;
                }
                sorted.insert(parsed, 0);
            },
            None => {
                proof {
                    assert(path::relative_names(paths@[i as int]@) is None);
                }
                return Err(SnapshotError::InvalidPath(PathFault::NotRelative));
            },
        }
        i = i + 1;
    }
    proof {
        assert(names.take(i as int) =~= names);
    }
    if has_root {
        return Err(SnapshotError::InvalidPath(PathFault::Root));
    }
    Ok(sorted_paths(&sorted))
}

/// Whether one of two paths lies at or below the other.
pub open spec fn overlaps(a: Names, b: Names) -> bool {
    path::lies_under(a, b) || path::lies_under(b, a)
}

/// Whether a path overlaps one of some paths.
pub open spec fn overlaps_any(p: Names, protected: Seq<Names>) -> bool {
    exists|i: int| 0 <= i < protected.len() && overlaps(p, #[trigger] protected[i])
}

/// The first protected path, in path order, that a path overlaps.
pub open spec fn is_first_overlap(p: Names, protected: Seq<Names>, by: Names) -> bool {
    &&& protected.contains(by)
    &&& overlaps(p, by)
    &&& forall|q: Names| #[trigger] protected.contains(q) && overlaps(p, q) ==> q == by || path::path_before(by, q)
}

fn overlaps_protected(at: &RelPath, protected: &Vec<RelPath>) -> (result: Option<usize>)
    ensures
        match result {
            Some(found) => {
                &&& found < protected@.len()
                &&& overlaps_any(at@, path::path_views(protected@))
                &&& overlaps(at@, path::path_views(protected@)[found as int])
                &&& forall|j: int| 0 <= j < found ==> !overlaps(at@, #[trigger] path::path_views(protected@)[j])
            },
            None => !overlaps_any(at@, path::path_views(protected@)),
        },
{
    let mut i: usize = 0;
    while i < protected.len()
        invariant
            i <= protected@.len(),
            forall|j: int| 0 <= j < i ==> !overlaps(at@, #[trigger] path::path_views(protected@)[j]),
        decreases protected@.len() - i,
    {
        if at.lies_below_or_at(&protected[i]) || protected[i].lies_below_or_at(at) {
            proof {
                assert(overlaps(at@, path::path_views(protected@)[i as int]));
            }
            return Some(i);
        }
        i = i + 1;
    }
    None
}

/// Whether a change involves a symbolic link.
pub open spec fn involves_symlink(entry: DeltaView) -> bool {
    ||| entry.before matches Some(before) && before.kind is Symlink
    ||| entry.after matches Some(after) && after.kind is Symlink
}

/// The bytes that some changes write.
pub open spec fn delta_bytes(entries: Seq<DeltaView>) -> int
    decreases entries.len(),
{
    if entries.len() == 0 {
        0
    } else {
        delta_bytes(entries.drop_last()) + match entries.last().after {
            Some(after) => bytes_to_write(after),
            None => 0,
        }
    }
}

/// Why a change is refused.
pub enum Refusal {
    /// The root itself is changed.
    Root,
    /// A protected path is changed.
    Protected { path: Names, protected: Seq<Names> },
    /// A symbolic link is involved.
    Symlink { path: Names },
    TooLarge { max_bytes: u64 },
}

/// Whether an error tells why a change is refused.
pub open spec fn tells_refusal(error: SnapshotError, refusal: Refusal) -> bool {
    match refusal {
        Refusal::Root => error == SnapshotError::InvalidPath(PathFault::Root),
        Refusal::Protected { path, protected } => error matches SnapshotError::DeltaRejected {
            path: at,
            reason: DeltaRefusal::Protected { by },
        } && at@ == path && is_first_overlap(path, protected, by@),
        Refusal::Symlink { path } => error matches SnapshotError::DeltaRejected {
            path: at,
            reason: DeltaRefusal::Symlink,
        } && at@ == path,
        Refusal::TooLarge { max_bytes } => error == SnapshotError::LimitExceeded(LimitFault::DeltaBytes { max_bytes }),
    }
}

/// Why a change is refused for its path alone.
pub open spec fn path_refusal(path: Names, protected: Seq<Names>) -> Option<Refusal> {
    if path.len() == 0 {
        Some(Refusal::Root)
    } else if overlaps_any(path, protected) {
        Some(Refusal::Protected { path, protected })
    } else {
        None
    }
}

/// Why a delta is refused at one of its changes.
pub open spec fn refusal_at(
    entries: Seq<DeltaView>,
    i: int,
    protected: Seq<Names>,
    allow_symlinks: bool,
    max_changed_bytes: u64,
) -> Option<Refusal> {
    if path_refusal(entries[i].path, protected) is Some {
        path_refusal(entries[i].path, protected)
    } else if !allow_symlinks && involves_symlink(entries[i]) {
        Some(Refusal::Symlink { path: entries[i].path })
    } else if delta_bytes(entries.take(i + 1)) > max_changed_bytes {
        Some(Refusal::TooLarge { max_bytes: max_changed_bytes })
    } else {
        None
    }
}

/// Why a delta is refused at the first of its changes that is refused.
pub open spec fn first_refusal(
    entries: Seq<DeltaView>,
    count: nat,
    protected: Seq<Names>,
    allow_symlinks: bool,
    max_changed_bytes: u64,
) -> Option<Refusal>
    decreases count,
{
    if count == 0 {
        None
    } else {
        match first_refusal(entries, (count - 1) as nat, protected, allow_symlinks, max_changed_bytes) {
            Some(error) => Some(error),
            None => refusal_at(entries, count - 1, protected, allow_symlinks, max_changed_bytes),
        }
    }
}

proof fn lemma_first_refusal_stays(
    entries: Seq<DeltaView>,
    few: nat,
    many: nat,
    protected: Seq<Names>,
    allow_symlinks: bool,
    max_changed_bytes: u64,
)
    requires
        few <= many,
        first_refusal(entries, few, protected, allow_symlinks, max_changed_bytes) is Some,
    ensures
        first_refusal(entries, many, protected, allow_symlinks, max_changed_bytes) == first_refusal(
            entries,
            few,
            protected,
            allow_symlinks,
            max_changed_bytes,
        ),
    decreases many,
{
    if few < many {
        lemma_first_refusal_stays(
            entries,
            few,
            (many - 1) as nat,
            protected,
            allow_symlinks,
            max_changed_bytes,
        );
    }
}

/// A complete, bounded delta between two snapshots.
pub struct SnapshotDelta {
    pub entries: Vec<DeltaEntry>,
    pub summary: SnapshotDeltaSummary,
    pub limits: SnapshotDeltaLimits,
}

/// What admitting the changes of a delta gives.
pub open spec fn is_admission(
    entries: Vec<DeltaEntry>,
    changed_paths: usize,
    limits: SnapshotDeltaLimits,
    policy: SnapshotDeltaPolicy,
    result: Result<SnapshotDelta, SnapshotError>,
) -> bool {
    if changed_paths > limits.max_changed_paths {
        result == Err::<SnapshotDelta, SnapshotError>(
            SnapshotError::LimitExceeded(
                LimitFault::DeltaPaths { given: changed_paths, limit: limits.max_changed_paths },
            ),
        )
    } else if !assembly::all_relative(policy.protected_paths@) {
        result == Err::<SnapshotDelta, SnapshotError>(SnapshotError::InvalidPath(PathFault::NotRelative))
    } else if assembly::all_names(policy.protected_paths@).contains(Names::empty()) {
        result == Err::<SnapshotDelta, SnapshotError>(SnapshotError::InvalidPath(PathFault::Root))
    } else {
        match first_refusal(
            delta_views(entries@),
            entries@.len(),
            assembly::all_names(policy.protected_paths@),
            policy.allow_symlinks,
            limits.max_changed_bytes,
        ) {
            Some(refusal) => result matches Err(error) && tells_refusal(error, refusal),
            None => result matches Ok(delta) && {
                &&& delta.entries == entries
                &&& delta.summary.changed_paths == changed_paths
                &&& delta.summary.changed_bytes == delta_bytes(delta_views(entries@))
                &&& delta.limits == limits
            },
        }
    }
}

/// Admits the changes of a delta under its limits and its policy.
pub fn admit_delta(
    entries: Vec<DeltaEntry>,
    changed_paths: usize,
    limits: SnapshotDeltaLimits,
    policy: &SnapshotDeltaPolicy,
) -> (result: Result<SnapshotDelta, SnapshotError>)
    ensures
        is_admission(entries, changed_paths, limits, *policy, result),
{
    if changed_paths > limits.max_changed_paths {
        return Err(
            SnapshotError::LimitExceeded(
                LimitFault::DeltaPaths { given: changed_paths, limit: limits.max_changed_paths },
            ),
        );
    }
    let protected = match prepare_protected_paths(&policy.protected_paths) {
        Ok(protected) => protected,
        Err(error) => {
            return Err(error);
        },
    };
    let ghost names = assembly::all_names(policy.protected_paths@);
    let ghost views = delta_views(entries@);
    let mut changed_bytes: u64 = 0;
    let mut i: usize = 0;
    proof {
        assert(views.take(0) =~= Seq::<DeltaView>::empty());
        assert forall|p: Names| #[trigger] overlaps_any(p, path::path_views(protected@)) == overlaps_any(
            p,
            names,
        ) by {
            lemma_overlaps_same(p, path::path_views(protected@), names);
        }
    }
    while i < entries.len()
        invariant
            i <= entries@.len(),
            changed_paths <= limits.max_changed_paths,
            assembly::all_relative(policy.protected_paths@),
            !assembly::all_names(policy.protected_paths@).contains(Names::empty()),
            names == assembly::all_names(policy.protected_paths@),
            views == delta_views(entries@),
            forall|p: Names| #[trigger]
                overlaps_any(p, path::path_views(protected@)) == overlaps_any(p, names),
            compare::paths_in_order(path::path_views(protected@)),
            forall|p: Names| #[trigger] path::path_views(protected@).contains(p) <==> names.contains(p),
            changed_bytes == delta_bytes(views.take(i as int)),
            first_refusal(views, i as nat, names, policy.allow_symlinks, limits.max_changed_bytes) is None,
        decreases entries@.len() - i,
    {
        proof {
            assert(views.take(i as int + 1).drop_last() =~= views.take(i as int));
            assert(views.take(i as int + 1).last() == entries@[i as int]@);
            assert(first_refusal(
                views,
                (i + 1) as nat,
                names,
                policy.allow_symlinks,
                limits.max_changed_bytes,
            ) == refusal_at(views, i as int, names, policy.allow_symlinks, limits.max_changed_bytes));
            if refusal_at(views, i as int, names, policy.allow_symlinks, limits.max_changed_bytes) is Some {
                lemma_first_refusal_stays(
                    views,
                    (i + 1) as nat,
                    views.len(),
                    names,
                    policy.allow_symlinks,
                    limits.max_changed_bytes,
                );
            }
        }
        if entries[i].change.path.is_root() {
            return Err(SnapshotError::InvalidPath(PathFault::Root));
        }
        match overlaps_protected(&entries[i].change.path, &protected) {
            Some(found) => {
                proof {
                    lemma_first_overlap(
                        entries@[i as int].change.path@,
                        path::path_views(protected@),
                        found as int,
                        names,
                    );
                }
                let path = entries[i].change.path.copy();
                let by = protected[found].copy();
                return Err(SnapshotError::DeltaRejected { path, reason: DeltaRefusal::Protected { by } });
            },
            None => {},
        }
        let before_is_link = match &entries[i].before {
            Some(before) => before.kind == SnapshotEntryKind::Symlink,
            None => false,
        };
        let after_is_link = match &entries[i].after {
            Some(after) => after.kind == SnapshotEntryKind::Symlink,
            None => false,
        };
        if !policy.allow_symlinks && (before_is_link || after_is_link) {
            let path = entries[i].change.path.copy();
            return Err(SnapshotError::DeltaRejected { path, reason: DeltaRefusal::Symlink });
        }
        let more: u64 = match &entries[i].after {
            Some(after) => replacement_bytes(after),
            None => 0,
        };
        match changed_bytes.checked_add(more) {
            Some(total) => {
                changed_bytes = total;
            },
            None => {
                return Err(
                    SnapshotError::LimitExceeded(
                        LimitFault::DeltaBytes { max_bytes: limits.max_changed_bytes },
                    ),
                );
            },
        }
        if changed_bytes > limits.max_changed_bytes {
            return Err(
                SnapshotError::LimitExceeded(
                    LimitFault::DeltaBytes { max_bytes: limits.max_changed_bytes },
                ),
            );
        }
        i = i + 1;
    }
    proof {
        assert(views.take(i as int) =~= views);
    }
    Ok(SnapshotDelta { entries, summary: SnapshotDeltaSummary { changed_paths, changed_bytes }, limits })
}

/// Refuses a change for its path alone: that of the root, and of what overlaps a
/// protected path.
pub fn refuse_path(changed: &RelPath, policy: &SnapshotDeltaPolicy) -> (refused: Option<SnapshotError>)
    requires
        assembly::all_relative(policy.protected_paths@),
        !assembly::all_names(policy.protected_paths@).contains(Names::empty()),
    ensures
        match path_refusal(changed@, assembly::all_names(policy.protected_paths@)) {
            Some(refusal) => refused matches Some(error) && tells_refusal(error, refusal),
            None => refused is None,
        },
{
    if changed.is_root() {
        return Some(SnapshotError::InvalidPath(PathFault::Root));
    }
    let protected = match prepare_protected_paths(&policy.protected_paths) {
        Ok(protected) => protected,
        Err(error) => {
            return Some(error);
        },
    };
    let ghost names = assembly::all_names(policy.protected_paths@);
    proof {
        lemma_overlaps_same(changed@, path::path_views(protected@), names);
    }
    match overlaps_protected(changed, &protected) {
        Some(found) => {
            proof {
                lemma_first_overlap(changed@, path::path_views(protected@), found as int, names);
            }
            let by = protected[found].copy();
            Some(SnapshotError::DeltaRejected { path: changed.copy(), reason: DeltaRefusal::Protected { by } })
        },
        None => None,
    }
}

proof fn lemma_first_overlap(p: Names, ordered: Seq<Names>, found: int, protected: Seq<Names>)
    requires
        compare::paths_in_order(ordered),
        0 <= found < ordered.len(),
        overlaps(p, ordered[found]),
        forall|j: int| 0 <= j < found ==> !overlaps(p, #[trigger] ordered[j]),
        forall|q: Names| #[trigger] ordered.contains(q) <==> protected.contains(q),
    ensures
        is_first_overlap(p, protected, ordered[found]),
{
    assert(ordered.contains(ordered[found]));
    assert forall|q: Names| #[trigger] protected.contains(q) && overlaps(p, q) implies q == ordered[found]
        || path::path_before(ordered[found], q) by {
        assert(ordered.contains(q));
        let j = choose|j: int| 0 <= j < ordered.len() && ordered[j] == q;
        assert(j >= found);
    }
}

proof fn lemma_overlaps_same(p: Names, a: Seq<Names>, b: Seq<Names>)
    requires
        forall|q: Names| #[trigger] a.contains(q) <==> b.contains(q),
    ensures
        overlaps_any(p, a) == overlaps_any(p, b),
{
    if overlaps_any(p, a) {
        let i = choose|i: int| 0 <= i < a.len() && overlaps(p, #[trigger] a[i]);
        assert(a.contains(a[i]));
        let j = choose|j: int| 0 <= j < b.len() && b[j] == a[i];
        assert(overlaps(p, b[j]));
    }
    if overlaps_any(p, b) {
        let i = choose|i: int| 0 <= i < b.len() && overlaps(p, #[trigger] b[i]);
        assert(b.contains(b[i]));
        assert(a.contains(b[i]));
        let j = choose|j: int| 0 <= j < a.len() && a[j] == b[i];
        assert(overlaps(p, a[j]));
    }
}

/// An admitted delta touches no protected path and, where the policy allows no
/// symbolic links, none of those.
pub proof fn law_admitted_delta_respects_policy(
    entries: Seq<DeltaView>,
    protected: Seq<Names>,
    allow_symlinks: bool,
    max_changed_bytes: u64,
    i: int,
)
    requires
        first_refusal(entries, entries.len(), protected, allow_symlinks, max_changed_bytes) is None,
        0 <= i < entries.len(),
    ensures
        !overlaps_any(entries[i].path, protected),
        !allow_symlinks ==> !involves_symlink(entries[i]),
        delta_bytes(entries.take(i + 1)) <= max_changed_bytes,
{
    lemma_no_refusal(entries, entries.len(), protected, allow_symlinks, max_changed_bytes, i);
}

proof fn lemma_no_refusal(
    entries: Seq<DeltaView>,
    count: nat,
    protected: Seq<Names>,
    allow_symlinks: bool,
    max_changed_bytes: u64,
    i: int,
)
    requires
        first_refusal(entries, count, protected, allow_symlinks, max_changed_bytes) is None,
        0 <= i < count,
    ensures
        refusal_at(entries, i, protected, allow_symlinks, max_changed_bytes) is None,
    decreases count,
{
    if i < count - 1 {
        lemma_no_refusal(entries, (count - 1) as nat, protected, allow_symlinks, max_changed_bytes, i);
    }
}

/// Two paths overlap exactly where one of them leads through the other.
pub proof fn law_paths_overlap_on_one_way(a: Names, b: Names)
    ensures
        overlaps(a, b) <==> (a.len() <= b.len() && b.take(a.len() as int) == a) || (b.len() <= a.len() && a.take(
            b.len() as int,
        ) == b),
        overlaps(a, b) == overlaps(b, a),
{
}

/// The bytes that a delta writes: those of the files that come, and of the targets of the
/// links that come.
pub proof fn law_changed_bytes_are_what_comes(entries: Seq<DeltaView>, last: DeltaView)
    ensures
        delta_bytes(Seq::<DeltaView>::empty()) == 0,
        delta_bytes(entries.push(last)) == delta_bytes(entries) + match last.after {
            Some(after) => match after.kind {
                SnapshotEntryKind::File => after.len as int,
                SnapshotEntryKind::Symlink => if after.symlink_target is Some {
                    after.symlink_target->0.len() as int
                } else {
                    0
                },
                SnapshotEntryKind::Directory => 0,
            },
            None => 0,
        },
{
    assert(entries.push(last).drop_last() =~= entries);
}

/// Whether a change is one that a policy allows: it is not at the root, it neither contains
/// nor lies in a protected path, and it involves a link only where links are allowed.
pub open spec fn is_allowed(entry: DeltaView, protected: Seq<Names>, allow_symlinks: bool) -> bool {
    &&& entry.path.len() > 0
    &&& forall|i: int| 0 <= i < protected.len() ==> !overlaps(entry.path, #[trigger] protected[i])
    &&& !allow_symlinks ==> !(entry.before matches Some(before) && before.kind is Symlink) && !(entry.after matches Some(
        after,
    ) && after.kind is Symlink)
}

proof fn lemma_bytes_grow(entries: Seq<DeltaView>, i: int, j: int)
    requires
        0 <= i <= j <= entries.len(),
    ensures
        delta_bytes(entries.take(i)) <= delta_bytes(entries.take(j)),
    decreases j - i,
{
    if i < j {
        lemma_bytes_grow(entries, i, j - 1);
        assert(entries.take(j).drop_last() =~= entries.take(j - 1));
    }
}

proof fn lemma_first_refusal(
    entries: Seq<DeltaView>,
    count: nat,
    protected: Seq<Names>,
    allow_symlinks: bool,
    max_changed_bytes: u64,
)
    requires
        count <= entries.len(),
    ensures
        first_refusal(entries, count, protected, allow_symlinks, max_changed_bytes) is None <==> (forall|i: int|
            0 <= i < count ==> is_allowed(#[trigger] entries[i], protected, allow_symlinks)) && (count > 0 ==> delta_bytes(
            entries.take(count as int),
        ) <= max_changed_bytes),
    decreases count,
{
    if count > 0 {
        let last = count - 1;
        lemma_first_refusal(entries, last as nat, protected, allow_symlinks, max_changed_bytes);
        lemma_bytes_grow(entries, last, count as int);
        let entry = entries[last];
        assert(is_allowed(entry, protected, allow_symlinks) <==> path_refusal(entry.path, protected) is None && (
        allow_symlinks || !involves_symlink(entry)));
        if forall|i: int| 0 <= i < count ==> is_allowed(#[trigger] entries[i], protected, allow_symlinks) {
            assert(is_allowed(entries[last], protected, allow_symlinks));
        }
    }
}

/// A delta is admitted exactly where each of its changes is one that the policy allows and
/// what it writes has no more bytes than the limit.
pub proof fn law_allowed_deltas_are_admitted(
    entries: Seq<DeltaView>,
    protected: Seq<Names>,
    allow_symlinks: bool,
    max_changed_bytes: u64,
)
    ensures
        first_refusal(entries, entries.len(), protected, allow_symlinks, max_changed_bytes) is None <==> (forall|i: int|
            0 <= i < entries.len() ==> is_allowed(#[trigger] entries[i], protected, allow_symlinks)) && (entries.len() > 0
            ==> delta_bytes(entries) <= max_changed_bytes),
{
    lemma_first_refusal(entries, entries.len(), protected, allow_symlinks, max_changed_bytes);
    assert(entries.take(entries.len() as int) =~= entries);
}

/// What an admitted delta tells: the changes that were given, how many there are, and the
/// bytes that they write, within its limits. Too many changes are refused first, then
/// protected paths that lead elsewhere or name the root.
pub proof fn law_admissions_tell_their_delta(
    entries: Vec<DeltaEntry>,
    changed_paths: usize,
    limits: SnapshotDeltaLimits,
    policy: SnapshotDeltaPolicy,
    result: Result<SnapshotDelta, SnapshotError>,
)
    requires
        is_admission(entries, changed_paths, limits, policy, result),
    ensures
        changed_paths > limits.max_changed_paths ==> result == Err::<SnapshotDelta, SnapshotError>(
            SnapshotError::LimitExceeded(
                LimitFault::DeltaPaths { given: changed_paths, limit: limits.max_changed_paths },
            ),
        ),
        result matches Ok(delta) ==> {
            &&& changed_paths <= limits.max_changed_paths
            &&& delta.entries == entries && delta.limits == limits
            &&& delta.summary.changed_paths == changed_paths
            &&& delta.summary.changed_bytes == delta_bytes(delta_views(entries@))
            &&& entries@.len() > 0 ==> delta_bytes(delta_views(entries@)) <= limits.max_changed_bytes
            &&& forall|i: int|
                0 <= i < entries@.len() ==> is_allowed(
                    #[trigger] delta_views(entries@)[i],
                    assembly::all_names(policy.protected_paths@),
                    policy.allow_symlinks,
                )
        },
{
    law_allowed_deltas_are_admitted(
        delta_views(entries@),
        assembly::all_names(policy.protected_paths@),
        policy.allow_symlinks,
        limits.max_changed_bytes,
    );
}

/// Why a change is refused: at the root, at a protected path, which is told by the first one
/// that it overlaps, or for a link that is not allowed.
pub proof fn law_refusals_name_their_reason(entries: Seq<DeltaView>, i: int, protected: Seq<Names>, max_changed_bytes: u64)
    requires
        0 <= i < entries.len(),
    ensures
        entries[i].path.len() == 0 ==> refusal_at(entries, i, protected, true, max_changed_bytes) == Some(Refusal::Root),
        entries[i].path.len() > 0 && (exists|k: int|
            0 <= k < protected.len() && overlaps(entries[i].path, #[trigger] protected[k])) ==> refusal_at(
            entries,
            i,
            protected,
            true,
            max_changed_bytes,
        ) == Some(Refusal::Protected { path: entries[i].path, protected }),
        is_allowed(entries[i], protected, true) && !is_allowed(entries[i], protected, false) ==> refusal_at(
            entries,
            i,
            protected,
            false,
            max_changed_bytes,
        ) == Some(Refusal::Symlink { path: entries[i].path }),
{
}

} // verus!
