//! Devices that a command may read. They were opened before it ran, so an open of
//! one is answered by that descriptor and never by the device itself.

use crate::bootstrap;
use crate::byte_order::Machine;
use crate::seccomp::denied;
use crate::seccomp::denied::{FileId, PolicyFnState};
use crate::sys::{AT_FDCWD, EACCES, EEXIST, EIO, ENOTDIR, O_ACCMODE, O_CLOEXEC, O_CREAT, O_EXCL, O_PATH, O_TRUNC};
use crate::text::{append_text, chars_of, copy_text, string_of};
use vstd::prelude::*;
use vstd::string::*;

verus! {

/// The identity of a device that was opened.
#[derive(Clone, Copy, Debug, PartialEq, Eq, Structural)]
pub struct ReadDevice {
    pub device: u64,
    pub inode: u64,
}

/// Takes a device that was opened, where its descriptor only reads.
pub fn take_device(checked: Result<(), bootstrap::DeviceFault>, device: u64, inode: u64) -> (result: Result<
    ReadDevice,
    bootstrap::DeviceFault,
>)
    ensures
        result == match checked {
            Ok(_) => Ok::<ReadDevice, bootstrap::DeviceFault>(ReadDevice { device, inode }),
            Err(fault) => Err::<ReadDevice, bootstrap::DeviceFault>(fault),
        },
{
    match checked {
        Ok(_) => Ok(ReadDevice { device, inode }),
        Err(fault) => Err(fault),
    }
}

/// Whether an open may be of a device that was opened before. A handle on a path
/// stays one of the kernel, and so does an open that resolves in its own way.
pub open spec fn may_name_device(has_devices: bool, is_open: bool, flags: u64, resolve: u64) -> bool {
    has_devices && is_open && flags & O_PATH == 0 && resolve == 0
}

/// Whether an open is looked at.
pub fn is_looked_at(devices: &Vec<ReadDevice>, is_open: bool, flags: u64, resolve: u64) -> (result: bool)
    ensures
        result == may_name_device(devices@.len() > 0, is_open, flags, resolve),
{
    devices.len() > 0 && is_open && flags & O_PATH == 0 && resolve == 0
}

/// The path that an open names, from the directory that it starts in.
pub open spec fn named_path(base: Seq<char>, written: Seq<char>) -> Seq<char> {
    if is_absolute_text(written) || base.len() == 0 {
        written
    } else if base.last() == '/' {
        base + written
    } else {
        base.push('/') + written
    }
}

/// Whether a path begins at the root.
pub open spec fn is_absolute_text(written: Seq<char>) -> bool {
    written.len() > 0 && written[0] == '/'
}

fn starts_with_slash(written: &str) -> (result: bool)
    ensures
        result == is_absolute_text(written@),
{
    let chars = chars_of(written);
    chars.len() > 0 && chars[0] == '/'
}

/// Tells the path that an open names, from the directory that it starts in.
pub fn probed_path(base: &str, written: &str) -> (path: String)
    ensures
        path@ == named_path(base@, written@),
{
    let mut chars: Vec<char> = Vec::new();
    if !starts_with_slash(written) {
        append_text(&mut chars, base);
        if chars.len() > 0 && chars[chars.len() - 1] != '/' {
            chars.push('/');
        }
    }
    let ghost front = chars@;
    append_text(&mut chars, written);
    proof {
        if front.len() == 0 {
            assert(chars@ =~= written@);
        }
        assert(Seq::<char>::empty() + base@ =~= base@);
    }
    string_of(&chars)
}

/// The place of the first device with an identity.
pub fn find_device(devices: &Vec<ReadDevice>, device: u64, inode: u64) -> (place: Option<usize>)
    ensures
        match place {
            Some(i) => {
                &&& i < devices@.len()
                &&& devices@[i as int] == (ReadDevice { device, inode })
                &&& forall|j: int| 0 <= j < i ==> #[trigger] devices@[j] != (ReadDevice { device, inode })
            },
            None => forall|j: int| 0 <= j < devices@.len() ==> #[trigger] devices@[j] != (ReadDevice { device, inode }),
        },
{
    let mut i: usize = 0;
    while i < devices.len()
        invariant
            i <= devices@.len(),
            forall|j: int| 0 <= j < i ==> #[trigger] devices@[j] != (ReadDevice { device, inode }),
        decreases devices@.len() - i,
    {
        if devices[i].device == device && devices[i].inode == inode {
            return Some(i);
        }
        i = i + 1;
    }
    None
}

/// Whether a device is denied: by the path that names it, by the path that it was
/// found at, or by its identity.
pub open spec fn device_is_denied(
    denied: denied::DeniedView,
    named: Seq<char>,
    found: Seq<char>,
    id: Option<denied::FileIdView>,
) -> bool {
    denied::path_is_denied(denied.paths, named) || denied::path_is_denied(denied.paths, found) || match id {
        Some(known) => denied.ids.contains(known),
        None => false,
    }
}

/// Whether a device is denied.
pub fn is_denied(policy: &PolicyFnState, named: &str, found: &str, id: &Option<FileId>) -> (result: bool)
    requires
        policy.denied.wf(),
    ensures
        result == device_is_denied(policy.denied@, named@, found@, denied::optional_id(*id)),
{
    if policy.is_path_denied(named) || policy.is_path_denied(found) {
        return true;
    }
    match id {
        Some(known) => policy.is_id_denied(known),
        None => false,
    }
}

/// The answer to an open of a device.
#[derive(Clone, Copy, Debug, PartialEq, Eq, Structural)]
pub enum DeviceAnswer {
    Errno(i32),
    /// A copy of the descriptor is handed out, with these flags.
    Inject { newfd_flags: u32 },
}

/// Why a device is not opened. `directory_flag` is the flag that asks for a
/// directory, which is not the same on every machine.
pub open spec fn device_refusal(denied: bool, flags: u64, directory_flag: u64) -> Option<i32> {
    if denied {
        Some(EACCES)
    } else if flags & (O_CREAT | O_EXCL) == O_CREAT | O_EXCL {
        Some(EEXIST)
    } else if flags & directory_flag != 0 {
        Some(ENOTDIR)
    } else if flags & O_ACCMODE != 0 || flags & O_TRUNC != 0 {
        Some(EACCES)
    } else {
        None
    }
}

/// Why a device is not opened.
pub fn refuse_device(denied: bool, flags: u64, directory_flag: u64) -> (errno: Option<i32>)
    ensures
        errno == device_refusal(denied, flags, directory_flag),
{
    if denied {
        Some(EACCES)
    } else if flags & (O_CREAT | O_EXCL) == O_CREAT | O_EXCL {
        Some(EEXIST)
    } else if flags & directory_flag != 0 {
        Some(ENOTDIR)
    } else if flags & O_ACCMODE != 0 || flags & O_TRUNC != 0 {
        Some(EACCES)
    } else {
        None
    }
}

/// The answer to an open of a device that is allowed, from the outcome of copying its
/// descriptor.
pub open spec fn copy_answer(flags: u64, copied: Result<(), Option<i32>>) -> DeviceAnswer {
    match copied {
        Ok(_) => DeviceAnswer::Inject { newfd_flags: (flags & O_CLOEXEC) as u32 },
        Err(Some(errno)) => DeviceAnswer::Errno(errno),
        Err(None) => DeviceAnswer::Errno(EIO),
    }
}

/// The answer to an open of a device that is allowed. `copied` is the outcome of
/// copying its descriptor, where an error may have no number.
pub fn open_device(flags: u64, copied: Result<(), Option<i32>>) -> (answer: DeviceAnswer)
    ensures
        answer == copy_answer(flags, copied),
{
    match copied {
        Ok(_) => DeviceAnswer::Inject { newfd_flags: (flags & O_CLOEXEC) as u32 },
        Err(Some(errno)) => DeviceAnswer::Errno(errno),
        Err(None) => DeviceAnswer::Errno(EIO),
    }
}

/// The arguments of an open.
#[derive(Clone, Copy, Debug, PartialEq, Eq, Structural)]
pub struct OpenArguments {
    pub path_address: u64,
    pub dirfd: i64,
    pub flags: u64,
    pub resolve: u64,
}

/// What was learned so far of an open; each part is there once it was asked for, and
/// nothing where it could not be learned.
#[derive(Debug)]
pub struct DeviceSeen {
    pub arguments: Option<Option<OpenArguments>>,
    pub written: Option<Option<String>>,
    /// The directory that a relative path starts in.
    pub base: Option<Option<String>>,
    /// The device and the inode of what the path leads to.
    pub probe: Option<Option<ReadDevice>>,
    /// The path of what was found.
    pub found: Option<Option<String>>,
    pub id: Option<Option<FileId>>,
    /// The outcome of copying the descriptor, where an error may have no number.
    pub copied: Option<Result<(), Option<i32>>>,
}

/// What is asked next of an open.
#[verifier::ext_equal]
pub enum DeviceAsk {
    /// The open is none of a device that was opened before.
    Decline,
    ReadArguments,
    ReadPath { address: u64 },
    ReadCwd,
    ReadDescriptor { fd: i32 },
    Probe { path: Seq<char>, flags: u64 },
    ReadFound,
    Identify,
    Copy { device: int },
    Answer(DeviceAnswer),
}

/// What is done next of an open.
#[derive(Debug)]
pub enum DeviceDo {
    /// The open is none of a device that was opened before.
    Decline,
    /// Read the arguments of the call.
    ReadArguments,
    /// Read the path as the task wrote it.
    ReadPath { address: u64 },
    /// Read the working directory of the task.
    ReadCwd,
    /// Read the path of a descriptor of the task.
    ReadDescriptor { fd: i32 },
    /// Take hold of what a path leads to below the root of the task, without opening it.
    Probe { path: String, flags: u64 },
    /// Read the path of what was taken hold of.
    ReadFound,
    /// Read the identity of what was taken hold of.
    Identify,
    /// Copy the descriptor of a device.
    Copy { device: usize },
    Answer(DeviceAnswer),
}

impl View for DeviceDo {
    type V = DeviceAsk;

    open spec fn view(&self) -> DeviceAsk {
        match self {
            DeviceDo::Decline => DeviceAsk::Decline,
            DeviceDo::ReadArguments => DeviceAsk::ReadArguments,
            DeviceDo::ReadPath { address } => DeviceAsk::ReadPath { address: *address },
            DeviceDo::ReadCwd => DeviceAsk::ReadCwd,
            DeviceDo::ReadDescriptor { fd } => DeviceAsk::ReadDescriptor { fd: *fd },
            DeviceDo::Probe { path, flags } => DeviceAsk::Probe { path: path@, flags: *flags },
            DeviceDo::ReadFound => DeviceAsk::ReadFound,
            DeviceDo::Identify => DeviceAsk::Identify,
            DeviceDo::Copy { device } => DeviceAsk::Copy { device: *device as int },
            DeviceDo::Answer(answer) => DeviceAsk::Answer(*answer),
        }
    }
}

/// The path that an open names, once it is known.
pub open spec fn path_named(arguments: OpenArguments, seen: DeviceSeen) -> Result<Seq<char>, DeviceAsk> {
    match seen.written {
        None => Err(DeviceAsk::ReadPath { address: arguments.path_address }),
        Some(None) => Err(DeviceAsk::Decline),
        Some(Some(written)) => if is_absolute_text(written@) {
            Ok(written@)
        } else {
            match seen.base {
                None => if arguments.dirfd as i32 == AT_FDCWD {
                    Err(DeviceAsk::ReadCwd)
                } else {
                    Err(DeviceAsk::ReadDescriptor { fd: arguments.dirfd as i32 })
                },
                Some(None) => Err(DeviceAsk::Decline),
                Some(Some(base)) => Ok(named_path(base@, written@)),
            }
        },
    }
}

/// The first place of a device; nothing where it is not among them.
pub open spec fn first_place(devices: Seq<ReadDevice>, device: ReadDevice, from: int) -> Option<int>
    decreases devices.len() - from,
{
    if from < 0 || from >= devices.len() {
        None
    } else if devices[from] == device {
        Some(from)
    } else {
        first_place(devices, device, from + 1)
    }
}

/// What follows once the open is known to be of a device.
pub open spec fn device_answered(
    place: int,
    named: Seq<char>,
    flags: u64,
    seen: DeviceSeen,
    denied: denied::DeniedView,
    machine: Machine,
) -> DeviceAsk {
    match (seen.found, seen.id) {
        (None, _) => DeviceAsk::ReadFound,
        (Some(None), _) => DeviceAsk::Decline,
        (Some(Some(_)), None) => DeviceAsk::Identify,
        (Some(Some(found)), Some(id)) => match device_refusal(
            device_is_denied(denied, named, found@, denied::optional_id(id)),
            flags,
            machine.directory,
        ) {
            Some(errno) => DeviceAsk::Answer(DeviceAnswer::Errno(errno)),
            None => match seen.copied {
                None => DeviceAsk::Copy { device: place },
                Some(copied) => DeviceAsk::Answer(copy_answer(flags, copied)),
            },
        },
    }
}

/// What is asked next of an open.
pub open spec fn device_ask(
    devices: Seq<ReadDevice>,
    is_open: bool,
    seen: DeviceSeen,
    denied: denied::DeniedView,
    machine: Machine,
) -> DeviceAsk {
    if devices.len() == 0 || !is_open {
        DeviceAsk::Decline
    } else {
        match seen.arguments {
            None => DeviceAsk::ReadArguments,
            Some(None) => DeviceAsk::Decline,
            Some(Some(arguments)) => if !may_name_device(true, true, arguments.flags, arguments.resolve) {
                DeviceAsk::Decline
            } else {
                match path_named(arguments, seen) {
                    Err(ask) => ask,
                    Ok(named) => match seen.probe {
                        None => DeviceAsk::Probe {
                            path: named,
                            flags: O_PATH | O_CLOEXEC | (arguments.flags & machine.nofollow),
                        },
                        Some(None) => DeviceAsk::Decline,
                        Some(Some(device)) => match first_place(devices, device, 0) {
                            None => DeviceAsk::Decline,
                            Some(place) => device_answered(place, named, arguments.flags, seen, denied, machine),
                        },
                    },
                }
            },
        }
    }
}

proof fn lemma_first_place(devices: Seq<ReadDevice>, device: ReadDevice, from: int, at: int)
    requires
        0 <= from <= at <= devices.len(),
        forall|j: int| from <= j < at ==> #[trigger] devices[j] != device,
        at < devices.len() ==> devices[at] == device,
    ensures
        first_place(devices, device, from) == if at < devices.len() {
            Some(at)
        } else {
            None
        },
    decreases at - from,
{
    if from < at {
        lemma_first_place(devices, device, from + 1, at);
    }
}

fn find_named(arguments: OpenArguments, seen: &DeviceSeen) -> (result: Result<String, DeviceDo>)
    ensures
        match (result, path_named(arguments, *seen)) {
            (Ok(named), Ok(meant)) => named@ == meant,
            (Err(step), Err(ask)) => step@ == ask,
            _ => false,
        },
{
    let written = match &seen.written {
        None => return Err(DeviceDo::ReadPath { address: arguments.path_address }),
        Some(None) => return Err(DeviceDo::Decline),
        Some(Some(written)) => written,
    };
    if starts_with_slash(written.as_str()) {
        return Ok(copy_text(written.as_str()));
    }
    match &seen.base {
        None => {
            if arguments.dirfd as i32 == AT_FDCWD {
                Err(DeviceDo::ReadCwd)
            } else {
                Err(DeviceDo::ReadDescriptor { fd: arguments.dirfd as i32 })
            }
        },
        Some(None) => Err(DeviceDo::Decline),
        Some(Some(base)) => Ok(probed_path(base.as_str(), written.as_str())),
    }
}

/// Tells what is done next of an open that may be of a device that was opened before.
/// `is_open` tells whether the call is one that opens.
pub fn open(
    devices: &Vec<ReadDevice>,
    is_open: bool,
    seen: &DeviceSeen,
    policy: &PolicyFnState,
    machine: Machine,
) -> (step: DeviceDo)
    requires
        policy.denied.wf(),
    ensures
        step@ == device_ask(devices@, is_open, *seen, policy.denied@, machine),
{
    if devices.len() == 0 || !is_open {
        return DeviceDo::Decline;
    }
    let arguments = match seen.arguments {
        None => return DeviceDo::ReadArguments,
        Some(None) => return DeviceDo::Decline,
        Some(Some(arguments)) => arguments,
    };
    if !is_looked_at(devices, is_open, arguments.flags, arguments.resolve) {
        return DeviceDo::Decline;
    }
    let named = match find_named(arguments, seen) {
        Err(step) => return step,
        Ok(named) => named,
    };
    let probed = match seen.probe {
        None => {
            let flags: u64 = O_PATH | O_CLOEXEC | (arguments.flags & machine.nofollow);
            return DeviceDo::Probe { path: named, flags };
        },
        Some(None) => return DeviceDo::Decline,
        Some(Some(probed)) => probed,
    };
    let place = match find_device(devices, probed.device, probed.inode) {
        None => {
            proof {
                lemma_first_place(devices@, probed, 0, devices@.len() as int);
            }
            return DeviceDo::Decline;
        },
        Some(place) => place,
    };
    proof {
        lemma_first_place(devices@, probed, 0, place as int);
    }
    let found = match &seen.found {
        None => return DeviceDo::ReadFound,
        Some(None) => return DeviceDo::Decline,
        Some(Some(found)) => found,
    };
    let id = match &seen.id {
        None => return DeviceDo::Identify,
        Some(id) => id,
    };
    let denied = is_denied(policy, named.as_str(), found.as_str(), id);
    match refuse_device(denied, arguments.flags, machine.directory) {
        Some(errno) => DeviceDo::Answer(DeviceAnswer::Errno(errno)),
        None => match seen.copied {
            None => DeviceDo::Copy { device: place },
            Some(copied) => DeviceDo::Answer(open_device(arguments.flags, copied)),
        },
    }
}

/// A device is handed out for reading alone, and never where it is denied.
pub proof fn law_devices_are_only_read(
    devices: Seq<ReadDevice>,
    is_open: bool,
    seen: DeviceSeen,
    denied: denied::DeniedView,
    machine: Machine,
)
    requires
        device_ask(devices, is_open, seen, denied, machine) is Copy || device_ask(
            devices,
            is_open,
            seen,
            denied,
            machine,
        ) matches DeviceAsk::Answer(DeviceAnswer::Inject { .. }),
    ensures
        seen.arguments matches Some(Some(arguments)) && seen.found matches Some(Some(found)) && seen.id matches Some(id) && {
            &&& arguments.flags & O_ACCMODE == 0
            &&& arguments.flags & O_TRUNC == 0
            &&& path_named(arguments, seen) matches Ok(named) && !device_is_denied(
                denied,
                named,
                found@,
                denied::optional_id(id),
            )
        },
{
}

/// An open may name a device only where there are some, the call is an open, it asks for
/// more than a place, and it says nothing of how a path is resolved. The flags of a place
/// are those of a descriptor that cannot read.
pub proof fn law_only_plain_opens_name_devices(has_devices: bool, is_open: bool, flags: u64, resolve: u64)
    ensures
        may_name_device(has_devices, is_open, flags, resolve) <==> has_devices && is_open && flags & 0x200000 == 0
            && resolve == 0,
{
}

/// A relative path is named from the directory that it starts in, with one separator
/// between them; an absolute one is named as it was written.
pub proof fn law_devices_are_named_from_their_base(base: Seq<char>, written: Seq<char>)
    ensures
        written.len() > 0 && written[0] == '/' ==> named_path(base, written) == written,
        (written.len() == 0 || written[0] != '/') && base.len() > 0 ==> {
            let named = named_path(base, written);
            &&& named.len() >= written.len()
            &&& named.skip(named.len() - written.len()) == written
            &&& named.take(base.len() as int) == base
            &&& named[named.len() - written.len() - 1] == '/'
            &&& named.len() == base.len() + written.len() + if base.last() == '/' {
                0int
            } else {
                1int
            }
        },
        base.len() == 0 ==> named_path(base, written) == written,
{
    if (written.len() == 0 || written[0] != '/') && base.len() > 0 {
        let named = named_path(base, written);
        assert(named.skip(named.len() - written.len()) =~= written);
        assert(named.take(base.len() as int) =~= base);
    }
}

/// How a device is refused: denied devices with a permission error, an exclusive creation
/// because it exists, a directory open because it is none, and everything that writes with a
/// permission error; a plain read is not refused.
pub proof fn law_devices_are_refused_like_files(denied: bool, flags: u64, directory_flag: u64)
    ensures
        ({
            let refusal = device_refusal(denied, flags, directory_flag);
            let exclusive = flags & (0x40u64 | 0x80u64) == 0x40u64 | 0x80u64;
            let is_directory = flags & directory_flag != 0;
            let writes = flags & 3 != 0 || flags & 0x200 != 0;
            &&& denied ==> refusal == Some(13i32)
            &&& !denied && exclusive ==> refusal == Some(17i32)
            &&& !denied && !exclusive && is_directory ==> refusal == Some(20i32)
            &&& !denied && !exclusive && !is_directory && writes ==> refusal == Some(13i32)
            &&& refusal is None <==> !denied && !exclusive && !is_directory && !writes
        }),
{
}

proof fn lemma_place_is_first(devices: Seq<ReadDevice>, device: ReadDevice, from: int)
    requires
        0 <= from <= devices.len(),
    ensures
        match first_place(devices, device, from) {
            Some(place) => from <= place < devices.len() && devices[place] == device && forall|j: int|
                from <= j < place ==> #[trigger] devices[j] != device,
            None => forall|j: int| from <= j < devices.len() ==> #[trigger] devices[j] != device,
        },
    decreases devices.len() - from,
{
    if from < devices.len() && devices[from] != device {
        lemma_place_is_first(devices, device, from + 1);
    }
}

/// An open of a device is decided step by step: the arguments are read, the path where they
/// say, the base of a relative one from the working directory or the descriptor of the call,
/// and the place is probed with its links followed as the call says; what is no device that
/// was opened before is none of this library's; a denied or refused one is answered with
/// its error, and any other is copied, close-on-exec as the call asked.
pub proof fn law_device_opens_are_decided(
    devices: Seq<ReadDevice>,
    is_open: bool,
    seen: DeviceSeen,
    denied: denied::DeniedView,
    machine: Machine,
    arguments: OpenArguments,
    written: String,
    base: String,
    device: ReadDevice,
    found: String,
    id: Option<FileId>,
    errno: i32,
)
    requires
        devices.len() > 0,
        is_open,
        seen.arguments == Some(Some(arguments)),
        arguments.flags & 0x200000 == 0,
        arguments.resolve == 0,
    ensures
        ({
            let ask = |seen: DeviceSeen| device_ask(devices, is_open, seen, denied, machine);
            let named = named_path(base@, written@);
            let based = DeviceSeen { written: Some(Some(written)), base: Some(Some(base)), probe: None, ..seen };
            let probed = DeviceSeen { probe: Some(Some(device)), found: None, id: None, copied: None, ..based };
            let known = DeviceSeen { found: Some(Some(found)), id: Some(id), ..probed };
            let refusal = device_refusal(
                device_is_denied(denied, named, found@, denied::optional_id(id)),
                arguments.flags,
                machine.directory,
            );
            &&& ask(DeviceSeen { arguments: None, ..seen }) is ReadArguments
            &&& ask(DeviceSeen { written: None, ..seen }) == (DeviceAsk::ReadPath { address: arguments.path_address })
            &&& !is_absolute_text(written@) ==> ask(DeviceSeen { base: None, ..based }) == if arguments.dirfd as i32 == (
            -100) as i32 {
                DeviceAsk::ReadCwd
            } else {
                DeviceAsk::ReadDescriptor { fd: arguments.dirfd as i32 }
            }
            &&& ask(based) == (DeviceAsk::Probe {
                path: named,
                flags: 0x200000u64 | 0x80000u64 | (arguments.flags & machine.nofollow),
            })
            &&& ask(DeviceSeen { probe: Some(None), ..based }) is Decline
            &&& !devices.contains(device) ==> ask(probed) is Decline
            &&& devices.contains(device) ==> {
                &&& ask(probed) is ReadFound
                &&& ask(DeviceSeen { found: Some(Some(found)), ..probed }) is Identify
                &&& refusal matches Some(told) ==> ask(known) == DeviceAsk::Answer(DeviceAnswer::Errno(told))
                &&& refusal is None ==> {
                    &&& ask(known) matches DeviceAsk::Copy { device: place } && 0 <= place < devices.len() && devices[place]
                        == device
                    &&& ask(DeviceSeen { copied: Some(Ok(())), ..known }) == DeviceAsk::Answer(
                        DeviceAnswer::Inject { newfd_flags: (arguments.flags & 0x80000) as u32 },
                    )
                    &&& ask(DeviceSeen { copied: Some(Err(Some(errno))), ..known }) == DeviceAsk::Answer(
                        DeviceAnswer::Errno(errno),
                    )
                    &&& ask(DeviceSeen { copied: Some(Err(None)), ..known }) == DeviceAsk::Answer(DeviceAnswer::Errno(5i32))
                }
            }
        }),
{
    lemma_place_is_first(devices, device, 0);
}

/// A device is denied exactly where the path that it was named by, the path that was found,
/// or its identity is denied.
pub proof fn law_devices_are_denied_by_path_or_identity(
    denied: denied::DeniedView,
    named: Seq<char>,
    found: Seq<char>,
    id: denied::FileIdView,
)
    ensures
        device_is_denied(denied, named, found, None) <==> denied::path_is_denied(denied.paths, named)
            || denied::path_is_denied(denied.paths, found),
        device_is_denied(denied, named, found, Some(id)) <==> denied::path_is_denied(denied.paths, named)
            || denied::path_is_denied(denied.paths, found) || denied.ids.contains(id),
{
}

} // verus!
