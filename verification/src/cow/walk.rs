//! The way from a path in the memory of a task to a path of the branch: what is
//! learned in which order, and what ends the way.

use crate::cow::paths;
use crate::cow::paths::{check_relative_resolution_base, magic_fd, resolve_at_path, BaseFacts, Layers, MagicFd};
use crate::cow::Reply;
use crate::path;
use crate::path::{copy_bytes, starts_at_root};
use crate::sys::AT_FDCWD;
use crate::text;
use crate::text::lossy;
use vstd::prelude::*;

verus! {

/// What was learned so far on the way; each part is there once it was asked for.
pub struct WalkSeen {
    /// The path as the task wrote it; nothing where it cannot be read.
    pub written: Option<Option<Vec<u8>>>,
    /// Whether there is a branch.
    pub has_branch: Option<bool>,
    /// What was seen of the directory that a relative path is followed from.
    pub base: Option<Result<BaseFacts, i32>>,
    /// The directory that the task was led into by the branch alone.
    pub virtual_cwd: Option<Option<Vec<u8>>>,
    /// Where the link that was asked for leads; nothing where it cannot be read.
    pub link: Option<Option<Vec<u8>>>,
    /// The layers of the branch; nothing without a branch.
    pub layers: Option<Option<Layers>>,
    /// Whether the branch claims the path.
    pub matches: Option<bool>,
    /// Whether the way to the path may be searched.
    pub access: Option<Result<(), i32>>,
}

/// What is asked next.
#[verifier::ext_equal]
pub enum WalkAsk {
    Answer(Reply),
    ReadPath { address: u64 },
    LookForBranch,
    LookAtBase { dirfd: i32 },
    ReadVirtualCwd,
    ReadCwd,
    ReadDescriptor { fd: int },
    ReadLink { link: Seq<u8> },
    ReadLayers,
    Match { path: Seq<u8> },
    CheckAccess { path: Seq<u8>, bits: u32 },
}

/// What is done next.
pub enum WalkStep {
    /// The call is answered.
    Answer(Reply),
    /// Read a path out of the memory of the task.
    ReadPath { address: u64 },
    /// Tell whether there is a branch.
    LookForBranch,
    /// Pin the directory and look at it.
    LookAtBase { dirfd: i32 },
    ReadVirtualCwd,
    /// Read where the working directory of the task is.
    ReadCwd,
    /// Read what a descriptor of the task leads to.
    ReadDescriptor { fd: i64 },
    /// Read a link of the process filesystem.
    ReadLink { link: Vec<u8> },
    ReadLayers,
    /// Ask the branch whether it claims a path.
    Match { path: Vec<u8> },
    /// Ask the branch whether the way to a path may be searched, and the path
    /// itself be used with these permissions.
    CheckAccess { path: Vec<u8>, bits: u32 },
}

impl View for WalkStep {
    type V = WalkAsk;

    open spec fn view(&self) -> WalkAsk {
        match self {
            WalkStep::Answer(reply) => WalkAsk::Answer(*reply),
            WalkStep::ReadPath { address } => WalkAsk::ReadPath { address: *address },
            WalkStep::LookForBranch => WalkAsk::LookForBranch,
            WalkStep::LookAtBase { dirfd } => WalkAsk::LookAtBase { dirfd: *dirfd },
            WalkStep::ReadVirtualCwd => WalkAsk::ReadVirtualCwd,
            WalkStep::ReadCwd => WalkAsk::ReadCwd,
            WalkStep::ReadDescriptor { fd } => WalkAsk::ReadDescriptor { fd: *fd as int },
            WalkStep::ReadLink { link } => WalkAsk::ReadLink { link: link@ },
            WalkStep::ReadLayers => WalkAsk::ReadLayers,
            WalkStep::Match { path } => WalkAsk::Match { path: path@ },
            WalkStep::CheckAccess { path, bits } => WalkAsk::CheckAccess { path: path@, bits: *bits },
        }
    }
}

/// The path that the task wrote.
pub open spec fn written_path(address: u64, seen: WalkSeen) -> Result<Seq<u8>, WalkAsk> {
    match seen.written {
        None => Err(WalkAsk::ReadPath { address }),
        Some(None) => Err(WalkAsk::Answer(Reply::Continue)),
        Some(Some(written)) => Ok(written@),
    }
}

/// Whether a path may be followed from its base.
pub open spec fn base_checked(dirfd: i64, written: Seq<u8>, seen: WalkSeen) -> Result<(), WalkAsk> {
    if path::is_absolute(written) {
        Ok(())
    } else {
        match seen.has_branch {
            None => Err(WalkAsk::LookForBranch),
            Some(false) => Ok(()),
            Some(true) => match seen.base {
                None => Err(WalkAsk::LookAtBase { dirfd: dirfd as i32 }),
                Some(pinned) => match paths::base_fault(written, true, pinned) {
                    Some(errno) => Err(WalkAsk::Answer(Reply::Errno(errno))),
                    None => Ok(()),
                },
            },
        }
    }
}

/// Where a link leads, as text.
pub open spec fn link_text(link: Option<Vec<u8>>) -> Option<Seq<u8>> {
    match link {
        Some(found) => Some(text::lossy_text(found@)),
        None => None,
    }
}

/// Where a link leads that was asked for.
pub open spec fn followed(seen: WalkSeen, ask: WalkAsk) -> Result<Option<Seq<u8>>, WalkAsk> {
    match seen.link {
        None => Err(ask),
        Some(link) => Ok(link_text(link)),
    }
}

/// The directory of a call: where the branch led the task, else where the kernel
/// has it.
pub open spec fn directory_of(dirfd: i64, is_relative: bool, seen: WalkSeen) -> Result<Option<Seq<u8>>, WalkAsk> {
    if dirfd as i32 != AT_FDCWD {
        followed(seen, WalkAsk::ReadDescriptor { fd: (dirfd as i32) as int })
    } else if !is_relative {
        followed(seen, WalkAsk::ReadCwd)
    } else {
        match seen.virtual_cwd {
            None => Err(WalkAsk::ReadVirtualCwd),
            Some(Some(cwd)) => Ok(Some(cwd@)),
            Some(None) => followed(seen, WalkAsk::ReadCwd),
        }
    }
}

/// The place that a path is followed from, where it needs one.
pub open spec fn found_base(dirfd: i64, written: Seq<u8>, seen: WalkSeen) -> Result<Option<Seq<u8>>, WalkAsk> {
    if path::is_absolute(written) {
        match paths::magic_of(written) {
            None => Ok(None),
            Some(paths::Magic::Own { fd, .. }) => followed(seen, WalkAsk::ReadDescriptor { fd }),
            Some(paths::Magic::Listed { link, .. }) => followed(seen, WalkAsk::ReadLink { link }),
        }
    } else {
        directory_of(dirfd, true, seen)
    }
}

/// Where the path of a call leads.
pub open spec fn plain_path(dirfd: i64, address: u64, seen: WalkSeen) -> Result<Seq<u8>, WalkAsk> {
    match written_path(address, seen) {
        Err(ask) => Err(ask),
        Ok(written) => match base_checked(dirfd, written, seen) {
            Err(ask) => Err(ask),
            Ok(_) => match found_base(dirfd, written, seen) {
                Err(ask) => Err(ask),
                Ok(found) => Ok(paths::resolved(written, found)),
            },
        },
    }
}

/// The path under which the branch knows a place.
pub open spec fn logical_place(place: Seq<u8>, seen: WalkSeen) -> Result<Seq<u8>, WalkAsk> {
    match seen.layers {
        None => Err(WalkAsk::ReadLayers),
        Some(None) => Err(WalkAsk::Answer(Reply::Continue)),
        Some(Some(layers)) => Ok(paths::logical_path(layers.workdir@, layers.upper@, place)),
    }
}

/// The path that the branch claims of a call.
pub open spec fn claimed_path(dirfd: i64, address: u64, seen: WalkSeen) -> Result<Seq<u8>, WalkAsk> {
    match plain_path(dirfd, address, seen) {
        Err(ask) => Err(ask),
        Ok(place) => match logical_place(place, seen) {
            Err(ask) => Err(ask),
            Ok(logical) => match seen.matches {
                None => Err(WalkAsk::Match { path: logical }),
                Some(false) => Err(WalkAsk::Answer(Reply::Continue)),
                Some(true) => Ok(logical),
            },
        },
    }
}

/// Whether a path of the branch may be used.
pub open spec fn access_checked(logical: Seq<u8>, bits: u32, seen: WalkSeen) -> Result<(), WalkAsk> {
    match seen.access {
        None => Err(WalkAsk::CheckAccess { path: logical, bits }),
        Some(Err(errno)) => Err(WalkAsk::Answer(Reply::Errno(errno))),
        Some(Ok(_)) => Ok(()),
    }
}

/// The path of the branch that a call may look at.
pub open spec fn open_path(dirfd: i64, address: u64, bits: u32, seen: WalkSeen) -> Result<Seq<u8>, WalkAsk> {
    match claimed_path(dirfd, address, seen) {
        Err(ask) => Err(ask),
        Ok(logical) => match access_checked(logical, bits, seen) {
            Err(ask) => Err(ask),
            Ok(_) => Ok(logical),
        },
    }
}

/// Whether a result is the one that is meant.
pub open spec fn tells(result: Result<Vec<u8>, WalkStep>, meant: Result<Seq<u8>, WalkAsk>) -> bool {
    match (result, meant) {
        (Ok(found), Ok(bytes)) => found@ == bytes,
        (Err(step), Err(ask)) => step@ == ask,
        _ => false,
    }
}

/// Whether an optional result is the one that is meant.
pub open spec fn tells_found(
    result: Result<Option<Vec<u8>>, WalkStep>,
    meant: Result<Option<Seq<u8>>, WalkAsk>,
) -> bool {
    match (result, meant) {
        (Ok(found), Ok(bytes)) => paths::found_bytes(found) == bytes,
        (Err(step), Err(ask)) => step@ == ask,
        _ => false,
    }
}

/// Whether a check is the one that is meant.
pub open spec fn tells_checked(result: Result<(), WalkStep>, meant: Result<(), WalkAsk>) -> bool {
    match (result, meant) {
        (Ok(_), Ok(_)) => true,
        (Err(step), Err(ask)) => step@ == ask,
        _ => false,
    }
}

fn read_link_text(link: &Option<Vec<u8>>) -> (read: Option<Vec<u8>>)
    ensures
        paths::found_bytes(read) == link_text(*link),
{
    match link {
        Some(found) => Some(lossy(found.as_slice())),
        None => None,
    }
}

impl WalkSeen {
    /// Nothing is known yet.
    pub fn nothing() -> (seen: WalkSeen)
        ensures
            seen == (WalkSeen {
                written: None,
                has_branch: None,
                base: None,
                virtual_cwd: None,
                link: None,
                layers: None,
                matches: None,
                access: None,
            }),
    {
        WalkSeen {
            written: None,
            has_branch: None,
            base: None,
            virtual_cwd: None,
            link: None,
            layers: None,
            matches: None,
            access: None,
        }
    }

    /// Reads the path that the task wrote.
    pub fn read_written(&self, address: u64) -> (result: Result<Vec<u8>, WalkStep>)
        ensures
            tells(result, written_path(address, *self)),
    {
        match &self.written {
            None => Err(WalkStep::ReadPath { address }),
            Some(None) => Err(WalkStep::Answer(Reply::Continue)),
            Some(Some(written)) => Ok(copy_bytes(written.as_slice())),
        }
    }

    /// Checks that a path may be followed from its base.
    pub fn check_base(&self, dirfd: i64, written: &[u8]) -> (result: Result<(), WalkStep>)
        ensures
            tells_checked(result, base_checked(dirfd, written@, *self)),
    {
        if starts_at_root(written) {
            return Ok(());
        }
        match self.has_branch {
            None => Err(WalkStep::LookForBranch),
            Some(false) => Ok(()),
            Some(true) => match &self.base {
                None => Err(WalkStep::LookAtBase { dirfd: dirfd as i32 }),
                Some(pinned) => match check_relative_resolution_base(written, true, *pinned) {
                    Err(errno) => Err(WalkStep::Answer(Reply::Errno(errno))),
                    Ok(_) => Ok(()),
                },
            },
        }
    }

    /// Tells the directory of a call.
    pub fn find_directory(&self, dirfd: i64, is_relative: bool) -> (result: Result<Option<Vec<u8>>, WalkStep>)
        ensures
            tells_found(result, directory_of(dirfd, is_relative, *self)),
    {
        if dirfd as i32 == AT_FDCWD && is_relative {
            match &self.virtual_cwd {
                None => {
                    return Err(WalkStep::ReadVirtualCwd);
                },
                Some(Some(cwd)) => {
                    return Ok(Some(copy_bytes(cwd.as_slice())));
                },
                Some(None) => {},
            }
        }
        match &self.link {
            Some(link) => Ok(read_link_text(link)),
            None => {
                if dirfd as i32 == AT_FDCWD {
                    Err(WalkStep::ReadCwd)
                } else {
                    Err(WalkStep::ReadDescriptor { fd: dirfd as i32 as i64 })
                }
            },
        }
    }

    /// Tells the place that a path is followed from.
    pub fn find_base(&self, dirfd: i64, written: &[u8]) -> (result: Result<Option<Vec<u8>>, WalkStep>)
        ensures
            tells_found(result, found_base(dirfd, written@, *self)),
    {
        if !starts_at_root(written) {
            return self.find_directory(dirfd, true);
        }
        match magic_fd(written) {
            None => Ok(None),
            Some(named) => match &self.link {
                Some(link) => Ok(read_link_text(link)),
                None => match named {
                    MagicFd::Own { fd, .. } => Err(WalkStep::ReadDescriptor { fd: fd as i64 }),
                    MagicFd::Listed { link, .. } => Err(WalkStep::ReadLink { link }),
                },
            },
        }
    }

    /// Tells where the path of a call leads.
    pub fn find_place(&self, dirfd: i64, address: u64) -> (result: Result<Vec<u8>, WalkStep>)
        ensures
            tells(result, plain_path(dirfd, address, *self)),
    {
        let written = match self.read_written(address) {
            Ok(written) => written,
            Err(step) => {
                return Err(step);
            },
        };
        match self.check_base(dirfd, written.as_slice()) {
            Ok(_) => {},
            Err(step) => {
                return Err(step);
            },
        }
        match self.find_base(dirfd, written.as_slice()) {
            Ok(found) => Ok(resolve_at_path(written.as_slice(), &found)),
            Err(step) => Err(step),
        }
    }

    /// Tells the path under which the branch knows a place.
    pub fn find_logical(&self, place: &[u8]) -> (result: Result<Vec<u8>, WalkStep>)
        ensures
            tells(result, logical_place(place@, *self)),
    {
        match &self.layers {
            None => Err(WalkStep::ReadLayers),
            Some(None) => Err(WalkStep::Answer(Reply::Continue)),
            Some(Some(layers)) => Ok(layers.map_upper_path(place)),
        }
    }

    /// Tells the path that the branch claims of a call.
    pub fn find_claimed(&self, dirfd: i64, address: u64) -> (result: Result<Vec<u8>, WalkStep>)
        ensures
            tells(result, claimed_path(dirfd, address, *self)),
    {
        let place = match self.find_place(dirfd, address) {
            Ok(place) => place,
            Err(step) => {
                return Err(step);
            },
        };
        let logical = match self.find_logical(place.as_slice()) {
            Ok(logical) => logical,
            Err(step) => {
                return Err(step);
            },
        };
        match self.matches {
            None => Err(WalkStep::Match { path: logical }),
            Some(false) => Err(WalkStep::Answer(Reply::Continue)),
            Some(true) => Ok(logical),
        }
    }

    /// Checks that a path of the branch may be used.
    pub fn check_access(&self, logical: &[u8], bits: u32) -> (result: Result<(), WalkStep>)
        ensures
            tells_checked(result, access_checked(logical@, bits, *self)),
    {
        match self.access {
            None => Err(WalkStep::CheckAccess { path: copy_bytes(logical), bits }),
            Some(Err(errno)) => Err(WalkStep::Answer(Reply::Errno(errno))),
            Some(Ok(_)) => Ok(()),
        }
    }

    /// Tells the path of the branch that a call may look at.
    pub fn find_open(&self, dirfd: i64, address: u64, bits: u32) -> (result: Result<Vec<u8>, WalkStep>)
        ensures
            tells(result, open_path(dirfd, address, bits, *self)),
    {
        let logical = match self.find_claimed(dirfd, address) {
            Ok(logical) => logical,
            Err(step) => {
                return Err(step);
            },
        };
        match self.check_access(logical.as_slice(), bits) {
            Ok(_) => Ok(logical),
            Err(step) => Err(step),
        }
    }
}

/// No path of the branch is looked at before the branch has claimed it, and the
/// way to it and the directory that it is followed from may be searched.
pub proof fn law_no_look_without_leave(dirfd: i64, address: u64, bits: u32, seen: WalkSeen)
    requires
        open_path(dirfd, address, bits, seen) is Ok,
    ensures
        seen.matches == Some(true),
        seen.access matches Some(Ok(_)),
        seen.layers matches Some(Some(_)),
        seen.written matches Some(Some(_)),
        ({
            let written = seen.written->0->0@;
            path::is_absolute(written) || seen.has_branch == Some(false) || paths::base_fault(
                written,
                true,
                seen.base->0,
            ) is None
        }),
{
}

/// A walk learns what it needs one after the other: the path where the call points, of a
/// relative one whether there is a branch and what its base is, then the directory that it
/// starts in, the layers, whether the branch claims the place, and whether it may be entered.
/// What cannot be read, is not claimed or has no layers goes on as it is.
pub proof fn law_walks_learn_step_by_step(
    dirfd: i64,
    address: u64,
    bits: u32,
    seen: WalkSeen,
    written: Vec<u8>,
    place: Seq<u8>,
    errno: i32,
)
    requires
        seen.written == Some(Some(written)),
    ensures
        ({
            let goes_on = WalkAsk::Answer(Reply::Continue);
            let ask = |seen: WalkSeen| open_path(dirfd, address, bits, seen);
            let unread = WalkSeen { written: None, ..seen };
            let unreadable = WalkSeen { written: Some(None), ..seen };
            &&& ask(unread) == Err::<Seq<u8>, WalkAsk>(WalkAsk::ReadPath { address })
            &&& ask(unreadable) == Err::<Seq<u8>, WalkAsk>(goes_on)
            &&& !path::is_absolute(written@) ==> {
                let branched = WalkSeen { has_branch: Some(true), ..seen };
                &&& ask(WalkSeen { has_branch: None, ..seen }) == Err::<Seq<u8>, WalkAsk>(WalkAsk::LookForBranch)
                &&& ask(WalkSeen { base: None, ..branched }) == Err::<Seq<u8>, WalkAsk>(
                    WalkAsk::LookAtBase { dirfd: dirfd as i32 },
                )
                &&& ask(WalkSeen { base: Some(Err(errno)), ..branched }) == Err::<Seq<u8>, WalkAsk>(
                    WalkAsk::Answer(Reply::Errno(errno)),
                )
            }
            &&& plain_path(dirfd, address, seen) == Ok::<Seq<u8>, WalkAsk>(place) ==> {
                &&& ask(WalkSeen { layers: None, ..seen }) == Err::<Seq<u8>, WalkAsk>(WalkAsk::ReadLayers)
                &&& ask(WalkSeen { layers: Some(None), ..seen }) == Err::<Seq<u8>, WalkAsk>(goes_on)
                &&& seen.layers matches Some(Some(layers)) ==> {
                    let logical = paths::logical_path(layers.workdir@, layers.upper@, place);
                    let claimed = WalkSeen { matches: Some(true), ..seen };
                    &&& ask(WalkSeen { matches: None, ..seen }) == Err::<Seq<u8>, WalkAsk>(WalkAsk::Match { path: logical })
                    &&& ask(WalkSeen { matches: Some(false), ..seen }) == Err::<Seq<u8>, WalkAsk>(goes_on)
                    &&& ask(WalkSeen { access: None, ..claimed }) == Err::<Seq<u8>, WalkAsk>(
                        WalkAsk::CheckAccess { path: logical, bits },
                    )
                    &&& ask(WalkSeen { access: Some(Err(errno)), ..claimed }) == Err::<Seq<u8>, WalkAsk>(
                        WalkAsk::Answer(Reply::Errno(errno)),
                    )
                    &&& ask(WalkSeen { access: Some(Ok(())), ..claimed }) == Ok::<Seq<u8>, WalkAsk>(logical)
                }
            }
        }),
{
}

/// The directory that a relative path starts in: that of the descriptor of the call, or the
/// working directory, which is the one that the branch keeps for the task where it keeps
/// one.
pub proof fn law_relative_paths_start_in_their_directory(dirfd: i64, seen: WalkSeen, cwd: Vec<u8>)
    ensures
        ({
            let here = |seen: WalkSeen| directory_of((-100) as i64, true, seen);
            let plain = WalkSeen { virtual_cwd: Some(None), ..seen };
            &&& here(WalkSeen { virtual_cwd: None, ..seen }) == Err::<Option<Seq<u8>>, WalkAsk>(WalkAsk::ReadVirtualCwd)
            &&& here(WalkSeen { virtual_cwd: Some(Some(cwd)), ..seen }) == Ok::<Option<Seq<u8>>, WalkAsk>(Some(cwd@))
            &&& here(WalkSeen { link: None, ..plain }) == Err::<Option<Seq<u8>>, WalkAsk>(WalkAsk::ReadCwd)
            &&& directory_of((-100) as i64, false, WalkSeen { link: None, ..seen }) == Err::<Option<Seq<u8>>, WalkAsk>(
                WalkAsk::ReadCwd,
            )
            &&& dirfd as i32 != (-100) as i32 ==> directory_of(dirfd, true, WalkSeen { link: None, ..seen }) == Err::<
                Option<Seq<u8>>,
                WalkAsk,
            >(WalkAsk::ReadDescriptor { fd: (dirfd as i32) as int })
            &&& dirfd as i32 != (-100) as i32 ==> directory_of(dirfd, true, WalkSeen { link: Some(Some(cwd)), ..seen }) == Ok::<
                Option<Seq<u8>>,
                WalkAsk,
            >(Some(text::lossy_text(cwd@)))
        }),
{
}

/// An absolute path starts nowhere, unless it names a descriptor, whose link is then read.
pub proof fn law_named_descriptors_are_read(dirfd: i64, written: Seq<u8>, seen: WalkSeen)
    requires
        path::is_absolute(written),
        seen.link is None,
    ensures
        paths::magic_of(written) is None ==> found_base(dirfd, written, seen) == Ok::<Option<Seq<u8>>, WalkAsk>(None),
        paths::magic_of(written) matches Some(paths::Magic::Own { fd, tail }) ==> found_base(dirfd, written, seen) == Err::<
            Option<Seq<u8>>,
            WalkAsk,
        >(WalkAsk::ReadDescriptor { fd }),
        paths::magic_of(written) matches Some(paths::Magic::Listed { link, tail }) ==> found_base(dirfd, written, seen)
            == Err::<Option<Seq<u8>>, WalkAsk>(WalkAsk::ReadLink { link }),
        base_checked(dirfd, written, seen) is Ok,
{
}

} // verus!
