//! The whole way of an open: what is asked in which order, from the arguments of
//! the call to the descriptor that the task gets.

use crate::byte_order::{ByteOrder, Machine};
use crate::cow::open;
use crate::cow::open::{
    after_first_attempt, check_open_access, closes_on_exec, create_mode, first_attempt, open_how_size, open_leaf_bits,
    parse_open, parse_open_how, plan_fault, revalidate, settle_resolution, AccessFacts, AfterOpen, BranchFault, OpenCall, OpenPlan,
    OpenRequest, ResolutionFacts, OPEN_HOW_SIZE,
};
use crate::cow::paths;
use crate::cow::paths::{resolve_openat2_lexical_path, Layers};
use crate::cow::walk;
use crate::cow::walk::{WalkSeen, WalkStep};
use crate::cow::Reply;
use crate::path;
use crate::path::{copy_bytes, starts_at_root};
use crate::sys::{EACCES, EEXIST, EINVAL, EIO, ENOENT, EXDEV, O_CREAT, RESOLVE_BENEATH, RESOLVE_IN_ROOT};
use vstd::prelude::*;

verus! {

/// What was learned so far of an open; each part is there once it was asked for.
pub struct OpenSeen {
    /// The structure of an extended open; nothing where it cannot be read.
    pub how: Option<Option<Vec<u8>>>,
    pub walk: WalkSeen,
    pub resolution: Option<ResolutionFacts>,
    /// Whether the branch has a directory there.
    pub is_directory: Option<bool>,
    pub access: Option<AccessFacts>,
    pub plan: Option<Result<OpenPlan, BranchFault>>,
    pub copied: Option<bool>,
    /// The file creation mask of the task; nothing where it cannot be read.
    pub umask: Option<Option<u32>>,
    /// Where the bounded path leads now; nothing without a branch.
    pub bounded: Option<Option<Result<Vec<u8>, i32>>>,
    pub first: Option<Result<(), i32>>,
    pub second: Option<Result<(), i32>>,
    /// Whether a new file has got its mode.
    pub mode_set: Option<Result<(), i32>>,
}

/// How links on the way of an open are followed.
#[derive(Clone, Copy, Debug, PartialEq, Eq, Structural)]
pub struct LinkRules {
    /// Whether a link at the end of the path is followed.
    pub follow: bool,
    /// Whether the base is the root of every link.
    pub in_root: bool,
    /// Whether a link that leads out of the base is refused.
    pub beneath: bool,
}

/// The rules that an open asks for.
pub open spec fn rules_of(request: OpenRequest, machine: Machine) -> LinkRules {
    LinkRules {
        follow: request.flags & machine.nofollow == 0,
        in_root: request.resolve & RESOLVE_IN_ROOT != 0,
        beneath: request.resolve & RESOLVE_BENEATH != 0,
    }
}

fn link_rules(request: OpenRequest, machine: Machine) -> (rules: LinkRules)
    ensures
        rules == rules_of(request, machine),
{
    LinkRules {
        follow: request.flags & machine.nofollow == 0,
        in_root: request.resolve & RESOLVE_IN_ROOT != 0,
        beneath: request.resolve & RESOLVE_BENEATH != 0,
    }
}

/// What is asked next.
#[verifier::ext_equal]
pub enum OpenAsk {
    Walk(walk::WalkAsk),
    ReadHow { address: u64, size: int },
    Resolve { path: Seq<u8>, bound: Option<Seq<u8>>, rules: LinkRules },
    LookAtKind { path: Seq<u8>, follow: bool },
    CheckAccess { path: Seq<u8>, bits: u32 },
    Plan { path: Seq<u8>, flags: u64 },
    Copy { rel: Seq<u8> },
    GiveBack { bytes: u64, reply: Reply },
    ReadUmask,
    ResolveAgain { path: Seq<u8>, base: Seq<u8>, rules: LinkRules },
    Open { in_upper: bool, rel: Seq<u8>, flags: i32, mode: u32, resolve: u64 },
    SetMode { mode: u32 },
    Discard { in_upper: bool, rel: Seq<u8>, errno: i32 },
    Inject { closes_on_exec: bool },
}

/// What is done next.
pub enum OpenDo {
    Walk(WalkStep),
    /// Read the structure of an extended open.
    ReadHow { address: u64, size: usize },
    /// Ask the branch whether it claims a path, which symbolic links are on the
    /// way, and where the path leads below its base.
    Resolve { path: Vec<u8>, bound: Option<Vec<u8>>, rules: LinkRules },
    /// Ask the branch whether it has a directory there.
    LookAtKind { path: Vec<u8>, follow: bool },
    /// Ask the branch about the permissions of a path and of its parent, and
    /// whether a read of it needs the branch.
    CheckAccess { path: Vec<u8>, bits: u32 },
    /// Let the branch plan the open.
    Plan { path: Vec<u8>, flags: u64 },
    /// Copy the file with this path below the root of the branch to the upper layer.
    Copy { rel: Vec<u8> },
    /// Give bytes back to the quota, and answer.
    GiveBack { bytes: u64, reply: Reply },
    ReadUmask,
    /// Ask the branch once more where a bounded path leads, and keep it locked.
    ResolveAgain { path: Vec<u8>, base: Vec<u8>, rules: LinkRules },
    /// Open a file inside a layer.
    Open { in_upper: bool, rel: Vec<u8>, flags: i32, mode: u32, resolve: u64 },
    /// Give the new file its mode.
    SetMode { mode: u32 },
    /// Close the new file, remove it, and fail.
    Discard { in_upper: bool, rel: Vec<u8>, errno: i32 },
    /// Hand the descriptor over.
    Inject { closes_on_exec: bool },
}

impl View for OpenDo {
    type V = OpenAsk;

    open spec fn view(&self) -> OpenAsk {
        match self {
            OpenDo::Walk(step) => OpenAsk::Walk(step@),
            OpenDo::ReadHow { address, size } => OpenAsk::ReadHow { address: *address, size: *size as int },
            OpenDo::Resolve { path, bound, rules } => OpenAsk::Resolve {
                path: path@,
                bound: paths::found_bytes(*bound),
                rules: *rules,
            },
            OpenDo::LookAtKind { path, follow } => OpenAsk::LookAtKind { path: path@, follow: *follow },
            OpenDo::CheckAccess { path, bits } => OpenAsk::CheckAccess { path: path@, bits: *bits },
            OpenDo::Plan { path, flags } => OpenAsk::Plan { path: path@, flags: *flags },
            OpenDo::Copy { rel } => OpenAsk::Copy { rel: rel@ },
            OpenDo::GiveBack { bytes, reply } => OpenAsk::GiveBack { bytes: *bytes, reply: *reply },
            OpenDo::ReadUmask => OpenAsk::ReadUmask,
            OpenDo::ResolveAgain { path, base, rules } => OpenAsk::ResolveAgain {
                path: path@,
                base: base@,
                rules: *rules,
            },
            OpenDo::Open { in_upper, rel, flags, mode, resolve } => OpenAsk::Open {
                in_upper: *in_upper,
                rel: rel@,
                flags: *flags,
                mode: *mode,
                resolve: *resolve,
            },
            OpenDo::SetMode { mode } => OpenAsk::SetMode { mode: *mode },
            OpenDo::Discard { in_upper, rel, errno } => OpenAsk::Discard {
                in_upper: *in_upper,
                rel: rel@,
                errno: *errno,
            },
            OpenDo::Inject { closes_on_exec } => OpenAsk::Inject { closes_on_exec: *closes_on_exec },
        }
    }
}

/// The call is answered.
pub open spec fn answer(reply: Reply) -> OpenAsk {
    OpenAsk::Walk(walk::WalkAsk::Answer(reply))
}

/// What the call asks for.
pub open spec fn request_of(call: OpenCall, args: Seq<u64>, order: ByteOrder, seen: OpenSeen) -> Result<OpenRequest, OpenAsk> {
    if !(call is OpenAt2) {
        Ok(open::plain_request(call, args))
    } else if args[3] < OPEN_HOW_SIZE {
        Err(answer(Reply::Errno(EINVAL)))
    } else if args[3] > open::OPEN_HOW_LIMIT {
        Err(answer(Reply::Errno(crate::sys::E2BIG)))
    } else {
        match seen.how {
            None => Err(OpenAsk::ReadHow { address: args[2], size: args[3] as int }),
            Some(None) => Err(answer(Reply::Continue)),
            Some(Some(how)) => if how@.len() < OPEN_HOW_SIZE {
                Err(answer(Reply::Continue))
            } else {
                match open::how_request(args, how@, order) {
                    Ok(request) => Ok(request),
                    Err(errno) => Err(answer(Reply::Errno(errno))),
                }
            },
        }
    }
}

/// A place, and the directory that a path may not leave on its way there.
#[verifier::ext_equal]
pub struct Bound {
    pub path: Seq<u8>,
    pub base: Option<Seq<u8>>,
}

/// Whether a path is bound to a directory.
pub open spec fn is_bound(resolve: u64) -> bool {
    resolve & RESOLVE_BENEATH != 0 || resolve & RESOLVE_IN_ROOT != 0
}

/// Where the path of an open leads by its names alone.
pub open spec fn lexical_place(request: OpenRequest, seen: WalkSeen) -> Result<Bound, OpenAsk> {
    match walk::written_path(request.path_address, seen) {
        Err(ask) => Err(OpenAsk::Walk(ask)),
        Ok(written) => match walk::base_checked(request.dirfd, written, seen) {
            Err(ask) => Err(OpenAsk::Walk(ask)),
            Ok(_) => if !is_bound(request.resolve) {
                match walk::found_base(request.dirfd, written, seen) {
                    Err(ask) => Err(OpenAsk::Walk(ask)),
                    Ok(found) => Ok(Bound { path: paths::resolved(written, found), base: None }),
                }
            } else if request.resolve & RESOLVE_BENEATH != 0 && request.resolve & RESOLVE_IN_ROOT != 0 {
                Err(answer(Reply::Errno(EINVAL)))
            } else if request.resolve & RESOLVE_BENEATH != 0 && path::is_absolute(written) {
                Err(answer(Reply::Errno(EXDEV)))
            } else {
                match walk::directory_of(request.dirfd, !path::is_absolute(written), seen) {
                    Err(ask) => Err(OpenAsk::Walk(ask)),
                    Ok(found) => match paths::bounded_fault(written, request.resolve, found) {
                        Some(errno) => Err(answer(Reply::Errno(errno))),
                        None => Ok(Bound { path: path::rendered(paths::bounded_norm(written, found->0)), base: found }),
                    },
                }
            },
        },
    }
}

/// The path of an open in the names of the branch.
pub open spec fn logical_bound(request: OpenRequest, seen: WalkSeen) -> Result<Bound, OpenAsk> {
    match lexical_place(request, seen) {
        Err(ask) => Err(ask),
        Ok(bound) => match seen.layers {
            None => Err(OpenAsk::Walk(walk::WalkAsk::ReadLayers)),
            Some(None) => Err(answer(Reply::Continue)),
            Some(Some(layers)) => Ok(
                Bound {
                    path: paths::logical_path(layers.workdir@, layers.upper@, bound.path),
                    base: match bound.base {
                        Some(base) => Some(paths::logical_path(layers.workdir@, layers.upper@, base)),
                        None => None,
                    },
                },
            ),
        },
    }
}

/// Where an open goes to: the path in the names of the branch, its bound, and
/// the path that is opened.
#[verifier::ext_equal]
pub struct TargetView {
    pub input: Seq<u8>,
    pub base: Option<Seq<u8>>,
    pub target: Seq<u8>,
}

/// Where an open goes to.
pub struct OpenTarget {
    pub input: Vec<u8>,
    pub base: Option<Vec<u8>>,
    pub target: Vec<u8>,
}

impl View for OpenTarget {
    type V = TargetView;

    open spec fn view(&self) -> TargetView {
        TargetView { input: self.input@, base: paths::found_bytes(self.base), target: self.target@ }
    }
}

/// Where the branch lets an open go to.
pub open spec fn target_of(request: OpenRequest, machine: Machine, seen: OpenSeen) -> Result<TargetView, OpenAsk> {
    match logical_bound(request, seen.walk) {
        Err(ask) => Err(ask),
        Ok(bound) => match seen.resolution {
            Some(facts) if (facts.bounded is Some) == (bound.base is Some) => {
                match open::resolution_of(request, bound.path, facts) {
                    Err(reply) => Err(answer(reply)),
                    Ok(target) => Ok(TargetView { input: bound.path, base: bound.base, target }),
                }
            },
            _ => Err(
                OpenAsk::Resolve { path: bound.path, bound: bound.base, rules: rules_of(request, machine) },
            ),
        },
    }
}

/// The file that the branch plans to open, and whether it may have to be made.
pub open spec fn planned(request: OpenRequest, machine: Machine, target: Seq<u8>, seen: OpenSeen) -> Result<
    (Seq<u8>, bool),
    OpenAsk,
> {
    match seen.is_directory {
        None => Err(OpenAsk::LookAtKind { path: target, follow: rules_of(request, machine).follow }),
        Some(is_directory) => match seen.access {
            None => Err(
                OpenAsk::CheckAccess { path: target, bits: open::leaf_permissions(request.flags, is_directory) },
            ),
            Some(facts) => match open::access_reply(request.flags, facts) {
                Some(reply) => Err(answer(reply)),
                None => match seen.plan {
                    None => Err(OpenAsk::Plan { path: target, flags: request.flags }),
                    Some(Err(fault)) => Err(answer(Reply::Errno(open::plan_errno(fault)))),
                    Some(Ok(OpenPlan::Skip)) => Err(answer(Reply::Continue)),
                    Some(Ok(OpenPlan::Deleted)) => Err(answer(Reply::Errno(ENOENT))),
                    Some(Ok(OpenPlan::Resolved(actual))) => Ok((actual@, false)),
                    Some(Ok(OpenPlan::UpperReady { upper, create_candidate })) => Ok((upper@, create_candidate)),
                    Some(Ok(OpenPlan::NeedsCopy { upper, rel, file_size })) => match seen.copied {
                        None => Err(OpenAsk::Copy { rel: rel@ }),
                        Some(true) => Ok((upper@, false)),
                        Some(false) => Err(OpenAsk::GiveBack { bytes: file_size, reply: Reply::Errno(EIO) }),
                    },
                },
            },
        },
    }
}

/// The mode that a file is opened with.
pub open spec fn mode_of(request: OpenRequest, seen: OpenSeen) -> Result<u32, OpenAsk> {
    if request.flags & O_CREAT != 0 {
        match seen.umask {
            None => Err(OpenAsk::ReadUmask),
            Some(umask) => Ok(open::creation_mode(request.flags, request.mode, umask)),
        }
    } else {
        Ok(open::creation_mode(request.flags, request.mode, None))
    }
}

/// Whether a bounded path still leads where it led.
pub open spec fn still_there(request: OpenRequest, machine: Machine, target: TargetView, seen: OpenSeen) -> Result<
    (),
    OpenAsk,
> {
    match target.base {
        None => Ok(()),
        Some(base) => match seen.bounded {
            None => Err(OpenAsk::ResolveAgain { path: target.input, base, rules: rules_of(request, machine) }),
            Some(None) => Err(answer(Reply::Errno(EIO))),
            Some(Some(bounded)) => match open::bounded_target(request.flags, target.input, bounded) {
                Err(errno) => Err(answer(Reply::Errno(errno))),
                Ok(leads) => if leads == target.target {
                    Ok(())
                } else {
                    Err(answer(Reply::Errno(crate::sys::EAGAIN)))
                },
            },
        },
    }
}

/// The last steps of an open: the file is opened inside its layer, a new one gets
/// its mode, and the task gets the descriptor.
pub open spec fn opened(
    request: OpenRequest,
    in_upper: bool,
    rel: Seq<u8>,
    create_candidate: bool,
    mode: u32,
    seen: OpenSeen,
) -> OpenAsk {
    let exclusive = open::tries_creation(request.flags, create_candidate);
    let ordinary = open::ordinary_flags(request.flags);
    let flags = if exclusive {
        ordinary | (O_CREAT as i32) | (crate::sys::O_EXCL as i32)
    } else {
        ordinary
    };
    match seen.first {
        None => OpenAsk::Open { in_upper, rel, flags, mode, resolve: request.resolve },
        Some(Err(errno)) => if exclusive && errno == EEXIST && request.flags & crate::sys::O_EXCL == 0 {
            match seen.second {
                None => OpenAsk::Open { in_upper, rel, flags: ordinary, mode, resolve: request.resolve },
                Some(Err(again)) => answer(Reply::Errno(again)),
                Some(Ok(_)) => OpenAsk::Inject { closes_on_exec: request.flags & crate::sys::O_CLOEXEC != 0 },
            }
        } else {
            answer(Reply::Errno(errno))
        },
        Some(Ok(_)) => if exclusive {
            match seen.mode_set {
                None => OpenAsk::SetMode { mode },
                Some(Err(errno)) => OpenAsk::Discard { in_upper, rel, errno },
                Some(Ok(_)) => OpenAsk::Inject { closes_on_exec: request.flags & crate::sys::O_CLOEXEC != 0 },
            }
        } else {
            OpenAsk::Inject { closes_on_exec: request.flags & crate::sys::O_CLOEXEC != 0 }
        },
    }
}

/// What follows once the branch has planned an open.
pub open spec fn finished(
    request: OpenRequest,
    machine: Machine,
    target: TargetView,
    actual: Seq<u8>,
    create_candidate: bool,
    layers: Layers,
    seen: OpenSeen,
) -> OpenAsk {
    match mode_of(request, seen) {
        Err(ask) => ask,
        Ok(mode) => match still_there(request, machine, target, seen) {
            Err(ask) => ask,
            Ok(_) => match paths::picked_layer(layers.workdir@, layers.upper@, actual) {
                None => answer(Reply::Errno(EACCES)),
                Some((in_upper, rel)) => if vstd::utf8::valid_utf8(rel) {
                    opened(request, in_upper, rel, create_candidate, mode, seen)
                } else {
                    answer(Reply::Errno(EINVAL))
                },
            },
        },
    }
}

/// What is asked next of an open.
pub open spec fn open_ask(call: OpenCall, args: Seq<u64>, machine: Machine, seen: OpenSeen) -> OpenAsk {
    match request_of(call, args, machine.order, seen) {
        Err(ask) => ask,
        Ok(request) => match target_of(request, machine, seen) {
            Err(ask) => ask,
            Ok(target) => match planned(request, machine, target.target, seen) {
                Err(ask) => ask,
                Ok((actual, create_candidate)) => finished(
                    request,
                    machine,
                    target,
                    actual,
                    create_candidate,
                    seen.walk.layers->0->0,
                    seen,
                ),
            },
        },
    }
}

fn read_request(call: OpenCall, args: &[u64; 6], order: ByteOrder, seen: &OpenSeen) -> (result: Result<
    OpenRequest,
    OpenDo,
>)
    ensures
        match (result, request_of(call, args@, order, *seen)) {
            (Ok(request), Ok(meant)) => request == meant,
            (Err(step), Err(ask)) => step@ == ask,
            _ => false,
        },
{
    match call {
        OpenCall::Open | OpenCall::OpenAt => {
            return Ok(parse_open(call, args));
        },
        OpenCall::OpenAt2 => {},
    }
    let size = match open_how_size(args[3]) {
        Ok(size) => size,
        Err(errno) => {
            return Err(OpenDo::Walk(WalkStep::Answer(Reply::Errno(errno))));
        },
    };
    match &seen.how {
        None => Err(OpenDo::ReadHow { address: args[2], size }),
        Some(None) => Err(OpenDo::Walk(WalkStep::Answer(Reply::Continue))),
        Some(Some(how)) => {
            if how.len() < OPEN_HOW_SIZE {
                return Err(OpenDo::Walk(WalkStep::Answer(Reply::Continue)));
            }
            match parse_open_how(args, how.as_slice(), order) {
                Ok(request) => Ok(request),
                Err(errno) => Err(OpenDo::Walk(WalkStep::Answer(Reply::Errno(errno)))),
            }
        },
    }
}

/// Whether a place is the one that is meant.
pub open spec fn tells_bound(result: Result<(Vec<u8>, Option<Vec<u8>>), OpenDo>, meant: Result<Bound, OpenAsk>) -> bool {
    match (result, meant) {
        (Ok((found, base)), Ok(bound)) => found@ == bound.path && paths::found_bytes(base) == bound.base,
        (Err(step), Err(ask)) => step@ == ask,
        _ => false,
    }
}

fn find_lexical(request: OpenRequest, seen: &WalkSeen) -> (result: Result<(Vec<u8>, Option<Vec<u8>>), OpenDo>)
    ensures
        tells_bound(result, lexical_place(request, *seen)),
{
    let written = match seen.read_written(request.path_address) {
        Ok(written) => written,
        Err(step) => {
            return Err(OpenDo::Walk(step));
        },
    };
    match seen.check_base(request.dirfd, written.as_slice()) {
        Ok(_) => {},
        Err(step) => {
            return Err(OpenDo::Walk(step));
        },
    }
    let beneath = request.resolve & RESOLVE_BENEATH != 0;
    let in_root = request.resolve & RESOLVE_IN_ROOT != 0;
    if !beneath && !in_root {
        return match seen.find_base(request.dirfd, written.as_slice()) {
            Ok(found) => Ok((paths::resolve_at_path(written.as_slice(), &found), None)),
            Err(step) => Err(OpenDo::Walk(step)),
        };
    }
    let absolute = starts_at_root(written.as_slice());
    if beneath && in_root {
        return Err(OpenDo::Walk(WalkStep::Answer(Reply::Errno(EINVAL))));
    }
    if beneath && absolute {
        return Err(OpenDo::Walk(WalkStep::Answer(Reply::Errno(EXDEV))));
    }
    let found = match seen.find_directory(request.dirfd, !absolute) {
        Ok(found) => found,
        Err(step) => {
            return Err(OpenDo::Walk(step));
        },
    };
    match resolve_openat2_lexical_path(written.as_slice(), request.resolve, &found, Vec::new()) {
        Ok(bounded) => Ok((bounded.path, bounded.base)),
        Err(errno) => Err(OpenDo::Walk(WalkStep::Answer(Reply::Errno(errno)))),
    }
}

fn find_target(request: OpenRequest, machine: Machine, seen: &OpenSeen) -> (result: Result<OpenTarget, OpenDo>)
    ensures
        match (result, target_of(request, machine, *seen)) {
            (Ok(target), Ok(meant)) => target@ == meant && seen.walk.layers matches Some(Some(_)),
            (Err(step), Err(ask)) => step@ == ask,
            _ => false,
        },
{
    let (place, bound) = match find_lexical(request, &seen.walk) {
        Ok(found) => found,
        Err(step) => {
            return Err(step);
        },
    };
    let layers = match &seen.walk.layers {
        None => {
            return Err(OpenDo::Walk(WalkStep::ReadLayers));
        },
        Some(None) => {
            return Err(OpenDo::Walk(WalkStep::Answer(Reply::Continue)));
        },
        Some(Some(layers)) => layers,
    };
    let input = layers.map_upper_path(place.as_slice());
    let base = match bound {
        Some(base) => Some(layers.map_upper_path(base.as_slice())),
        None => None,
    };
    let facts = match &seen.resolution {
        Some(facts) => facts,
        None => {
            return Err(OpenDo::Resolve { path: input, bound: base, rules: link_rules(request, machine) });
        },
    };
    if facts.bounded.is_some() != base.is_some() {
        return Err(OpenDo::Resolve { path: input, bound: base, rules: link_rules(request, machine) });
    }
    match settle_resolution(request, input.as_slice(), facts) {
        Ok(target) => Ok(OpenTarget { input, base, target }),
        Err(reply) => Err(OpenDo::Walk(WalkStep::Answer(reply))),
    }
}

fn find_planned(request: OpenRequest, machine: Machine, target: &[u8], seen: &OpenSeen) -> (result: Result<
    (Vec<u8>, bool),
    OpenDo,
>)
    ensures
        match (result, planned(request, machine, target@, *seen)) {
            (Ok((actual, candidate)), Ok(meant)) => actual@ == meant.0 && candidate == meant.1,
            (Err(step), Err(ask)) => step@ == ask,
            _ => false,
        },
{
    let is_directory = match seen.is_directory {
        Some(is_directory) => is_directory,
        None => {
            let follow = link_rules(request, machine).follow;
            return Err(OpenDo::LookAtKind { path: copy_bytes(target), follow });
        },
    };
    let facts = match seen.access {
        Some(facts) => facts,
        None => {
            let bits = open_leaf_bits(request.flags, is_directory);
            return Err(OpenDo::CheckAccess { path: copy_bytes(target), bits });
        },
    };
    match check_open_access(request.flags, facts) {
        Some(reply) => {
            return Err(OpenDo::Walk(WalkStep::Answer(reply)));
        },
        None => {},
    }
    match &seen.plan {
        None => Err(OpenDo::Plan { path: copy_bytes(target), flags: request.flags }),
        Some(Err(fault)) => Err(OpenDo::Walk(WalkStep::Answer(Reply::Errno(plan_fault(*fault))))),
        Some(Ok(plan)) => match plan {
            OpenPlan::Skip => Err(OpenDo::Walk(WalkStep::Answer(Reply::Continue))),
            OpenPlan::Deleted => Err(OpenDo::Walk(WalkStep::Answer(Reply::Errno(ENOENT)))),
            OpenPlan::Resolved(actual) => Ok((copy_bytes(actual.as_slice()), false)),
            OpenPlan::UpperReady { upper, create_candidate } => Ok((copy_bytes(upper.as_slice()), *create_candidate)),
            OpenPlan::NeedsCopy { upper, rel, file_size } => match seen.copied {
                None => Err(OpenDo::Copy { rel: copy_bytes(rel.as_slice()) }),
                Some(true) => Ok((copy_bytes(upper.as_slice()), false)),
                Some(false) => Err(OpenDo::GiveBack { bytes: *file_size, reply: Reply::Errno(EIO) }),
            },
        },
    }
}

fn find_mode(request: OpenRequest, seen: &OpenSeen) -> (result: Result<u32, OpenDo>)
    ensures
        match (result, mode_of(request, *seen)) {
            (Ok(mode), Ok(meant)) => mode == meant,
            (Err(step), Err(ask)) => step@ == ask,
            _ => false,
        },
{
    if request.flags & O_CREAT != 0 {
        match seen.umask {
            None => Err(OpenDo::ReadUmask),
            Some(umask) => Ok(create_mode(request.flags, request.mode, umask)),
        }
    } else {
        Ok(create_mode(request.flags, request.mode, None))
    }
}

fn check_still_there(request: OpenRequest, machine: Machine, target: &OpenTarget, seen: &OpenSeen) -> (result: Result<
    (),
    OpenDo,
>)
    ensures
        match (result, still_there(request, machine, target@, *seen)) {
            (Ok(_), Ok(_)) => true,
            (Err(step), Err(ask)) => step@ == ask,
            _ => false,
        },
{
    let base = match &target.base {
        None => {
            return Ok(());
        },
        Some(base) => base,
    };
    match &seen.bounded {
        None => Err(
            OpenDo::ResolveAgain {
                path: copy_bytes(target.input.as_slice()),
                base: copy_bytes(base.as_slice()),
                rules: link_rules(request, machine),
            },
        ),
        Some(None) => Err(OpenDo::Walk(WalkStep::Answer(Reply::Errno(EIO)))),
        Some(Some(bounded)) => match revalidate(
            request.flags,
            true,
            target.input.as_slice(),
            target.target.as_slice(),
            bounded,
        ) {
            None => Ok(()),
            Some(reply) => Err(OpenDo::Walk(WalkStep::Answer(reply))),
        },
    }
}

fn finish_open(
    request: OpenRequest,
    in_upper: bool,
    rel: Vec<u8>,
    create_candidate: bool,
    mode: u32,
    seen: &OpenSeen,
) -> (step: OpenDo)
    ensures
        step@ == opened(request, in_upper, rel@, create_candidate, mode, *seen),
{
    let (flags, exclusive) = first_attempt(request.flags, create_candidate);
    let first = match seen.first {
        Some(first) => first,
        None => {
            return OpenDo::Open { in_upper, rel, flags, mode, resolve: request.resolve };
        },
    };
    let closes = closes_on_exec(request.flags);
    match after_first_attempt(request.flags, exclusive, first) {
        AfterOpen::Failed(errno) => OpenDo::Walk(WalkStep::Answer(Reply::Errno(errno))),
        AfterOpen::Retry { flags } => match seen.second {
            None => OpenDo::Open { in_upper, rel, flags, mode, resolve: request.resolve },
            Some(Err(errno)) => OpenDo::Walk(WalkStep::Answer(Reply::Errno(errno))),
            Some(Ok(_)) => OpenDo::Inject { closes_on_exec: closes },
        },
        AfterOpen::Opened { created } => {
            if !created {
                return OpenDo::Inject { closes_on_exec: closes };
            }
            match seen.mode_set {
                None => OpenDo::SetMode { mode },
                Some(Err(errno)) => OpenDo::Discard { in_upper, rel, errno },
                Some(Ok(_)) => OpenDo::Inject { closes_on_exec: closes },
            }
        },
    }
}

/// Tells what is done next of an open, by what was learned so far.
pub fn handle_cow_open(call: OpenCall, args: &[u64; 6], machine: Machine, seen: &OpenSeen) -> (step: OpenDo)
    ensures
        step@ == open_ask(call, args@, machine, *seen),
{
    let request = match read_request(call, args, machine.order, seen) {
        Ok(request) => request,
        Err(step) => {
            return step;
        },
    };
    let target = match find_target(request, machine, seen) {
        Ok(target) => target,
        Err(step) => {
            return step;
        },
    };
    let (actual, create_candidate) = match find_planned(request, machine, target.target.as_slice(), seen) {
        Ok(planned) => planned,
        Err(step) => {
            return step;
        },
    };
    let mode = match find_mode(request, seen) {
        Ok(mode) => mode,
        Err(step) => {
            return step;
        },
    };
    match check_still_there(request, machine, &target, seen) {
        Ok(_) => {},
        Err(step) => {
            return step;
        },
    }
    match &seen.walk.layers {
        Some(Some(layers)) => match layers.pick_root_rel(actual.as_slice()) {
            Ok(place) => finish_open(request, place.in_upper, place.rel, create_candidate, mode, seen),
            Err(errno) => OpenDo::Walk(WalkStep::Answer(Reply::Errno(errno))),
        },
        _ => OpenDo::Walk(WalkStep::Answer(Reply::Continue)),
    }
}

/// The path, the request and the plan of an open that the branch has planned.
pub open spec fn is_planned(call: OpenCall, args: Seq<u64>, machine: Machine, seen: OpenSeen) -> bool {
    request_of(call, args, machine.order, seen) matches Ok(request) && target_of(request, machine, seen) matches Ok(
        target,
    ) && planned(
        request,
        machine,
        target.target,
        seen,
    ) is Ok
}

/// Whether the branch was asked to plan an open and took it on.
pub open spec fn is_claimed(call: OpenCall, args: Seq<u64>, machine: Machine, seen: OpenSeen) -> bool {
    &&& request_of(call, args, machine.order, seen) matches Ok(request)
    &&& target_of(request, machine, seen) is Ok
    &&& seen.is_directory is Some
    &&& seen.access matches Some(facts)
    &&& open::access_reply(request.flags, facts) is None
    &&& seen.plan matches Some(plan)
    &&& !(plan matches Ok(OpenPlan::Skip))
}

/// Once the branch has taken on an open, it never goes to the kernel, which would
/// open the lower file by its old name: what is deleted stays hidden, and whatever
/// fails afterwards fails the call.
pub proof fn law_claimed_opens_stay_in_the_branch(call: OpenCall, args: Seq<u64>, machine: Machine, seen: OpenSeen)
    requires
        is_claimed(call, args, machine, seen),
    ensures
        open_ask(call, args, machine, seen) != answer(Reply::Continue),
{
}

/// The task gets a descriptor only of a file that the branch has planned, that was
/// opened inside a layer, and whose bounded path still leads there; a file that
/// was made for the call has got its mode.
pub proof fn law_descriptors_come_from_the_branch(call: OpenCall, args: Seq<u64>, machine: Machine, seen: OpenSeen)
    requires
        open_ask(call, args, machine, seen) is Inject,
    ensures
        is_planned(call, args, machine, seen),
        seen.access matches Some(facts) && facts.access is Ok,
        seen.first is Some,
        seen.first->0 is Ok || seen.second matches Some(Ok(_)),
        ({
            let request = request_of(call, args, machine.order, seen)->Ok_0;
            let target = target_of(request, machine, seen)->Ok_0;
            let candidate = planned(request, machine, target.target, seen)->Ok_0.1;
            &&& still_there(request, machine, target, seen) is Ok
            &&& open::tries_creation(request.flags, candidate) && seen.first->0 is Ok ==> seen.mode_set matches Some(
                Ok(_),
            )
        }),
{
}

} // verus!
