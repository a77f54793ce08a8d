//! The mounts of a launch as one step: from a plan, and from what was opened for it,
//! to the arguments that the launcher gets.

use crate::bubblewrap;
use crate::bubblewrap::launch;
use crate::bubblewrap::launch::{DeviceLook, Launch};
use crate::bubblewrap::{deny_source, LaunchFault, SourceOutcome};
use crate::filesystem_backend;
use crate::filesystem_backend::{FilesystemEntry, FilesystemPlan};
use crate::path;
use vstd::prelude::*;
use vstd::string::*;

verus! {

/// What was opened for a plan.
#[derive(Debug)]
pub struct Opened {
    /// How the source of each entry was opened.
    pub sources: Vec<SourceOutcome>,
    /// What the device of each entry is; looked at only for devices that may only be
    /// read.
    pub looks: Vec<DeviceLook>,
    /// An empty mask for each denied path; used only where an entry shows the path.
    pub masks: Vec<i32>,
    pub bootstrap: i32,
}

/// The directories that a command may start in.
#[derive(Debug)]
pub struct StartPlaces {
    pub cwd: Option<Vec<u8>>,
    pub shown_workdir: Option<Vec<u8>>,
    pub workdir: Option<Vec<u8>>,
}

impl StartPlaces {
    /// The directory that the command starts in.
    pub open spec fn directory(self) -> Seq<u8> {
        launch::start_directory(
            filesystem_backend::optional(self.cwd),
            filesystem_backend::optional(self.shown_workdir),
            filesystem_backend::optional(self.workdir),
        )
    }
}

/// A launch with the first entries of a plan mounted, in their order, or what stops
/// the first of them that cannot be mounted.
pub open spec fn with_entries(
    start: launch::LaunchView,
    entries: Seq<filesystem_backend::PlanEntry>,
    sources: Seq<SourceOutcome>,
    looks: Seq<DeviceLook>,
    n: int,
) -> Result<launch::LaunchView, LaunchFault>
    decreases n,
{
    if n <= 0 {
        Ok(start)
    } else {
        match with_entries(start, entries, sources, looks, n - 1) {
            Err(fault) => Err(fault),
            Ok(so_far) => match launch::entry_fault(entries[n - 1], sources[n - 1], looks[n - 1]) {
                Some(fault) => Err(fault),
                None => Ok(launch::with_entry(so_far, entries[n - 1], sources[n - 1])),
            },
        }
    }
}

/// Whether an entry shows a path.
pub open spec fn is_shown(entries: Seq<filesystem_backend::PlanEntry>, written: Seq<u8>) -> bool {
    exists|i: int| 0 <= i < entries.len() && bubblewrap::shows(#[trigger] entries[i], written)
}

/// A launch with the first denied paths masked, as far as an entry shows them.
pub open spec fn with_masks(
    start: launch::LaunchView,
    entries: Seq<filesystem_backend::PlanEntry>,
    denied: Seq<Seq<u8>>,
    masks: Seq<i32>,
    n: int,
) -> Result<launch::LaunchView, LaunchFault>
    decreases n,
{
    if n <= 0 {
        Ok(start)
    } else {
        match with_masks(start, entries, denied, masks, n - 1) {
            Err(fault) => Err(fault),
            Ok(so_far) => if !is_shown(entries, denied[n - 1]) {
                Ok(so_far)
            } else if denied[n - 1].contains(0u8) {
                Err(LaunchFault::NulByte)
            } else {
                Ok(launch::with_read_only(so_far, masks[n - 1], denied[n - 1]))
            },
        }
    }
}

/// A launch with the process filesystem mounted where the plan has it.
pub open spec fn with_proc(so_far: launch::LaunchView, proc_mounted: bool) -> launch::LaunchView {
    if proc_mounted {
        launch::with_args(so_far, seq![launch::MOUNT_PROC.spec_bytes(), launch::PROC_ROOT.spec_bytes()])
    } else {
        so_far
    }
}

/// A launch with the bootstrap mounted and the mounts ended.
pub open spec fn ended(so_far: launch::LaunchView, bootstrap: i32, directory: Seq<u8>) -> launch::LaunchView {
    launch::with_args(
        launch::with_read_only(so_far, bootstrap, launch::BOOTSTRAP_DESTINATION.spec_bytes()),
        launch::settle_args(so_far.read_devices.len() > 0, directory),
    )
}

/// The mounts of a plan: its entries, the process filesystem, the masks over what is
/// denied, the bootstrap, and the directory to start in.
pub open spec fn mounts_of(
    user: Option<(u32, u32)>,
    plan: FilesystemPlan,
    opened: Opened,
    directory: Seq<u8>,
) -> Result<launch::LaunchView, LaunchFault> {
    let entries = filesystem_backend::entry_views(plan.entries@);
    let start = launch::LaunchView {
        argv: launch::start_args(user),
        read_devices: Seq::empty(),
        inherited: Seq::empty(),
    };
    match with_entries(start, entries, opened.sources@, opened.looks@, entries.len() as int) {
        Err(fault) => Err(fault),
        Ok(shown) => match with_masks(
            with_proc(shown, plan.proc_mounted),
            entries,
            path::byte_views(plan.denied@),
            opened.masks@,
            plan.denied@.len() as int,
        ) {
            Err(fault) => Err(fault),
            Ok(covered) => if directory.contains(0u8) {
                Err(LaunchFault::NulByte)
            } else {
                Ok(ended(covered, opened.bootstrap, directory))
            },
        },
    }
}

proof fn lemma_entries_stop(
    start: launch::LaunchView,
    entries: Seq<filesystem_backend::PlanEntry>,
    sources: Seq<SourceOutcome>,
    looks: Seq<DeviceLook>,
    n: int,
    all: int,
)
    requires
        n <= all,
        with_entries(start, entries, sources, looks, n) is Err,
    ensures
        with_entries(start, entries, sources, looks, all) == with_entries(start, entries, sources, looks, n),
    decreases all - n,
{
    if n < all {
        lemma_entries_stop(start, entries, sources, looks, n, all - 1);
    }
}

proof fn lemma_masks_stop(
    start: launch::LaunchView,
    entries: Seq<filesystem_backend::PlanEntry>,
    denied: Seq<Seq<u8>>,
    masks: Seq<i32>,
    n: int,
    all: int,
)
    requires
        n <= all,
        with_masks(start, entries, denied, masks, n) is Err,
    ensures
        with_masks(start, entries, denied, masks, all) == with_masks(start, entries, denied, masks, n),
    decreases all - n,
{
    if n < all {
        lemma_masks_stop(start, entries, denied, masks, n, all - 1);
    }
}

fn mount_entries(
    so_far: &mut Launch,
    entries: &Vec<FilesystemEntry>,
    sources: &Vec<SourceOutcome>,
    looks: &Vec<DeviceLook>,
) -> (result: Result<(), LaunchFault>)
    requires
        sources@.len() == entries@.len(),
        looks@.len() == entries@.len(),
    ensures
        match with_entries(
            old(so_far)@,
            filesystem_backend::entry_views(entries@),
            sources@,
            looks@,
            entries@.len() as int,
        ) {
            Ok(shown) => result is Ok && final(so_far)@ == shown,
            Err(fault) => result == Err::<(), LaunchFault>(fault),
        },
{
    let ghost start = so_far@;
    let ghost views = filesystem_backend::entry_views(entries@);
    let mut i: usize = 0;
    while i < entries.len()
        invariant
            i <= entries@.len(),
            sources@.len() == entries@.len(),
            looks@.len() == entries@.len(),
            views == filesystem_backend::entry_views(entries@),
            start == old(so_far)@,
            with_entries(start, views, sources@, looks@, i as int) == Ok::<launch::LaunchView, LaunchFault>(so_far@),
        decreases entries@.len() - i,
    {
        match so_far.add_entry(&entries[i], sources[i], looks[i]) {
            Err(fault) => {
                proof {
                    lemma_entries_stop(start, views, sources@, looks@, i as int + 1, entries@.len() as int);
                }
                return Err(fault);
            },
            Ok(()) => {},
        }
        i = i + 1;
    }
    Ok(())
}

fn mask_denied(
    so_far: &mut Launch,
    entries: &Vec<FilesystemEntry>,
    denied: &Vec<Vec<u8>>,
    masks: &Vec<i32>,
) -> (result: Result<(), LaunchFault>)
    requires
        masks@.len() == denied@.len(),
    ensures
        match with_masks(
            old(so_far)@,
            filesystem_backend::entry_views(entries@),
            path::byte_views(denied@),
            masks@,
            denied@.len() as int,
        ) {
            Ok(covered) => result is Ok && final(so_far)@ == covered,
            Err(fault) => result == Err::<(), LaunchFault>(fault),
        },
{
    let ghost start = so_far@;
    let ghost views = filesystem_backend::entry_views(entries@);
    let ghost paths = path::byte_views(denied@);
    let mut i: usize = 0;
    while i < denied.len()
        invariant
            i <= denied@.len(),
            masks@.len() == denied@.len(),
            views == filesystem_backend::entry_views(entries@),
            paths == path::byte_views(denied@),
            start == old(so_far)@,
            with_masks(start, views, paths, masks@, i as int) == Ok::<launch::LaunchView, LaunchFault>(so_far@),
        decreases denied@.len() - i,
    {
        let source = deny_source(entries, denied[i].as_slice());
        assert(paths[i as int] == denied@[i as int]@);
        assert(source is Some == is_shown(views, paths[i as int]));
        if source.is_some() {
            match so_far.add_mask(denied[i].as_slice(), masks[i]) {
                Err(fault) => {
                    proof {
                        lemma_masks_stop(start, views, paths, masks@, i as int + 1, denied@.len() as int);
                    }
                    return Err(fault);
                },
                Ok(()) => {},
            }
        }
        i = i + 1;
    }
    Ok(())
}

impl Launch {
    /// Puts the mounts of a plan together, or tells what stops them.
    pub fn mount_plan(
        user: Option<(u32, u32)>,
        plan: &FilesystemPlan,
        opened: &Opened,
        places: &StartPlaces,
    ) -> (result: Result<Launch, LaunchFault>)
        requires
            opened.sources@.len() == plan.entries@.len(),
            opened.looks@.len() == plan.entries@.len(),
            opened.masks@.len() == plan.denied@.len(),
        ensures
            match mounts_of(user, *plan, *opened, places.directory()) {
                Ok(mounted) => result matches Ok(so_far) && so_far@ == mounted,
                Err(fault) => result == Err::<Launch, LaunchFault>(fault),
            },
    {
        let mut so_far = Launch::start(user);
        match mount_entries(&mut so_far, &plan.entries, &opened.sources, &opened.looks) {
            Err(fault) => return Err(fault),
            Ok(()) => {},
        }
        if plan.proc_mounted {
            so_far.add_proc();
        }
        match mask_denied(&mut so_far, &plan.entries, &plan.denied, &opened.masks) {
            Err(fault) => return Err(fault),
            Ok(()) => {},
        }
        so_far.add_bootstrap(opened.bootstrap);
        match so_far.settle(&places.cwd, &places.shown_workdir, &places.workdir) {
            Err(fault) => return Err(fault),
            Ok(()) => {},
        }
        Ok(so_far)
    }
}

/// Each denied path that an entry shows is covered: where the mounts can be put
/// together, the arguments mount its mask over it for reading only.
pub proof fn law_shown_denials_are_masked(
    user: Option<(u32, u32)>,
    plan: FilesystemPlan,
    opened: Opened,
    directory: Seq<u8>,
    d: int,
)
    requires
        0 <= d < plan.denied@.len(),
        is_shown(filesystem_backend::entry_views(plan.entries@), plan.denied@[d]@),
        mounts_of(user, plan, opened, directory) is Ok,
    ensures
        exists|at: int|
            #![trigger mounts_of(user, plan, opened, directory)->Ok_0.argv[at]]
            0 <= at && at + 3 <= mounts_of(user, plan, opened, directory)->Ok_0.argv.len() && mounts_of(
                user,
                plan,
                opened,
                directory,
            )->Ok_0.argv.subrange(at, at + 3) == launch::mount_args(
                launch::RO_BIND.spec_bytes(),
                opened.masks@[d],
                plan.denied@[d]@,
            ),
{
    let entries = filesystem_backend::entry_views(plan.entries@);
    let start = launch::LaunchView {
        argv: launch::start_args(user),
        read_devices: Seq::empty(),
        inherited: Seq::empty(),
    };
    let shown = with_entries(start, entries, opened.sources@, opened.looks@, entries.len() as int)->Ok_0;
    let base = with_proc(shown, plan.proc_mounted);
    let denied = path::byte_views(plan.denied@);
    let all = plan.denied@.len() as int;
    lemma_mask_stays(base, entries, denied, opened.masks@, d, all);
    let covered = with_masks(base, entries, denied, opened.masks@, all)->Ok_0;
    let at = choose|at: int|
        #![trigger covered.argv[at]]
        0 <= at && at + 3 <= covered.argv.len() && covered.argv.subrange(at, at + 3) == launch::mount_args(
            launch::RO_BIND.spec_bytes(),
            opened.masks@[d],
            denied[d],
        );
    let whole = mounts_of(user, plan, opened, directory)->Ok_0;
    assert(whole.argv.subrange(at, at + 3) =~= covered.argv.subrange(at, at + 3));
    assert(whole.argv[at] == covered.argv[at]);
}

proof fn lemma_mask_stays(
    start: launch::LaunchView,
    entries: Seq<filesystem_backend::PlanEntry>,
    denied: Seq<Seq<u8>>,
    masks: Seq<i32>,
    d: int,
    n: int,
)
    requires
        0 <= d < n <= denied.len(),
        is_shown(entries, denied[d]),
        with_masks(start, entries, denied, masks, n) is Ok,
    ensures
        ({
            let covered = with_masks(start, entries, denied, masks, n)->Ok_0;
            exists|at: int|
                #![trigger covered.argv[at]]
                0 <= at && at + 3 <= covered.argv.len() && covered.argv.subrange(at, at + 3) == launch::mount_args(
                    launch::RO_BIND.spec_bytes(),
                    masks[d],
                    denied[d],
                )
        }),
    decreases n,
{
    let covered = with_masks(start, entries, denied, masks, n)->Ok_0;
    let before = with_masks(start, entries, denied, masks, n - 1)->Ok_0;
    assert(with_masks(start, entries, denied, masks, n - 1) is Ok);
    let wanted = launch::mount_args(launch::RO_BIND.spec_bytes(), masks[d], denied[d]);
    if d == n - 1 {
        let at = before.argv.len() as int;
        assert(covered.argv.subrange(at, at + 3) =~= wanted);
        assert(covered.argv[at] == wanted[0]);
    } else {
        lemma_mask_stays(start, entries, denied, masks, d, n - 1);
        let at = choose|at: int|
            #![trigger before.argv[at]]
            0 <= at && at + 3 <= before.argv.len() && before.argv.subrange(at, at + 3) == wanted;
        assert(covered.argv.subrange(at, at + 3) =~= before.argv.subrange(at, at + 3));
        assert(covered.argv[at] == before.argv[at]);
    }
}

proof fn lemma_entry_stays(
    start: launch::LaunchView,
    entries: Seq<filesystem_backend::PlanEntry>,
    sources: Seq<SourceOutcome>,
    looks: Seq<DeviceLook>,
    e: int,
    n: int,
) -> (at: int)
    requires
        0 <= e < n <= entries.len(),
        sources[e] is Opened,
        with_entries(start, entries, sources, looks, n) is Ok,
    ensures
        ({
            let shown = with_entries(start, entries, sources, looks, n)->Ok_0;
            0 <= at && at + 3 <= shown.argv.len() && shown.argv.subrange(at, at + 3) == launch::mount_args(
                launch::bind_option(entries[e].access),
                sources[e]->Opened_0,
                entries[e].guest_path,
            )
        }),
    decreases n,
{
    let shown = with_entries(start, entries, sources, looks, n)->Ok_0;
    let before = with_entries(start, entries, sources, looks, n - 1)->Ok_0;
    assert(with_entries(start, entries, sources, looks, n - 1) is Ok);
    let wanted = launch::mount_args(
        launch::bind_option(entries[e].access),
        sources[e]->Opened_0,
        entries[e].guest_path,
    );
    if e == n - 1 {
        let at = before.argv.len() as int;
        assert(shown.argv.subrange(at, at + 3) =~= wanted);
        at
    } else {
        let at = lemma_entry_stays(start, entries, sources, looks, e, n - 1);
        assert(shown.argv.subrange(at, at + 3) =~= before.argv.subrange(at, at + 3));
        at
    }
}

proof fn lemma_masks_keep_what_was_mounted(
    start: launch::LaunchView,
    entries: Seq<filesystem_backend::PlanEntry>,
    denied: Seq<Seq<u8>>,
    masks: Seq<i32>,
    n: int,
)
    requires
        0 <= n <= denied.len(),
        with_masks(start, entries, denied, masks, n) is Ok,
    ensures
        ({
            let covered = with_masks(start, entries, denied, masks, n)->Ok_0;
            &&& covered.argv.len() >= start.argv.len()
            &&& covered.argv.take(start.argv.len() as int) == start.argv
            &&& covered.read_devices == start.read_devices
        }),
    decreases n,
{
    let covered = with_masks(start, entries, denied, masks, n)->Ok_0;
    if n > 0 {
        lemma_masks_keep_what_was_mounted(start, entries, denied, masks, n - 1);
        let before = with_masks(start, entries, denied, masks, n - 1)->Ok_0;
        assert(covered.argv.take(start.argv.len() as int) =~= before.argv.take(start.argv.len() as int));
    } else {
        assert(covered.argv.take(start.argv.len() as int) =~= start.argv);
    }
}

/// Every entry whose source was opened is mounted, from its descriptor and in its place, as
/// its access says, and nothing is mounted where an entry or a mask has a fault.
pub proof fn law_opened_entries_are_mounted(
    user: Option<(u32, u32)>,
    plan: FilesystemPlan,
    opened: Opened,
    directory: Seq<u8>,
    e: int,
)
    requires
        0 <= e < plan.entries@.len(),
        mounts_of(user, plan, opened, directory) is Ok,
    ensures
        ({
            let entry = plan.entries@[e]@;
            let made = mounts_of(user, plan, opened, directory)->Ok_0;
            opened.sources@[e] matches SourceOutcome::Opened(fd) ==> exists|at: int|
                #![trigger made.argv[at]]
                0 <= at && at + 3 <= made.argv.len() && made.argv.subrange(at, at + 3) == launch::mount_args(
                    launch::bind_option(entry.access),
                    fd,
                    entry.guest_path,
                )
        }),
{
    let entries = filesystem_backend::entry_views(plan.entries@);
    let start = launch::LaunchView {
        argv: launch::start_args(user),
        read_devices: Seq::empty(),
        inherited: Seq::empty(),
    };
    let made = mounts_of(user, plan, opened, directory)->Ok_0;
    let shown = with_entries(start, entries, opened.sources@, opened.looks@, entries.len() as int)->Ok_0;
    let mounted = with_proc(shown, plan.proc_mounted);
    let denied = path::byte_views(plan.denied@);
    let covered = with_masks(mounted, entries, denied, opened.masks@, plan.denied@.len() as int)->Ok_0;
    lemma_masks_keep_what_was_mounted(mounted, entries, denied, opened.masks@, plan.denied@.len() as int);
    if let SourceOutcome::Opened(fd) = opened.sources@[e] {
        let at = lemma_entry_stays(
            start,
            entries,
            opened.sources@,
            opened.looks@,
            e,
            entries.len() as int,
        );
        let wanted = launch::mount_args(
            launch::bind_option(plan.entries@[e]@.access),
            fd,
            plan.entries@[e]@.guest_path,
        );
        assert(entries[e] == plan.entries@[e]@);
        assert(mounted.argv.subrange(at, at + 3) =~= wanted);
        assert(covered.argv.take(mounted.argv.len() as int).subrange(at, at + 3) =~= covered.argv.subrange(at, at + 3));
        assert(covered.argv.subrange(at, at + 3) =~= wanted);
        assert(made.argv.subrange(at, at + 3) =~= covered.argv.subrange(at, at + 3));
        assert(made.argv[at] == made.argv.subrange(at, at + 3)[0]);
    }
}

/// A plan that shows the process filesystem mounts it, and every launch ends with the
/// program behind the mounts, a read-only root and the directory of the command.
pub proof fn law_launches_end_with_their_bootstrap(
    so_far: launch::LaunchView,
    bootstrap: i32,
    directory: Seq<u8>,
)
    ensures
        with_proc(so_far, true).argv == so_far.argv + seq!["--proc".spec_bytes(), "/proc".spec_bytes()],
        with_proc(so_far, false) == so_far,
        ended(so_far, bootstrap, directory).argv == so_far.argv + seq![
            "--ro-bind".spec_bytes(),
            launch::fd_path(bootstrap),
            "/.sandlock-bootstrap".spec_bytes(),
        ] + launch::settle_args(so_far.read_devices.len() > 0, directory),
        ended(so_far, bootstrap, directory).inherited == so_far.inherited.push(bootstrap),
{
}

} // verus!
