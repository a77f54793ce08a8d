//! Looking at files through a branch.

use crate::byte_order;
use crate::byte_order::{read_u16, write_u16, ByteOrder};
use crate::cow::paths;
use crate::cow::paths::Layers;
use crate::cow::Reply;
use crate::path;
use crate::path::{append_bytes, bytes_equal, copy_bytes, strip_prefix};
use crate::sys::{
    AT_EMPTY_PATH, AT_FDCWD, AT_SYMLINK_NOFOLLOW, EACCES, ENOENT, OWNER_EXECUTE, OWNER_READ, R_OK,
    S_IFMT, X_OK,
};
use crate::text;
use vstd::prelude::*;
use vstd::string::*;

verus! {

/// The calls that ask for access.
#[derive(Clone, Copy, Debug, PartialEq, Eq, Structural)]
pub enum AccessCall {
    /// `access(path, mode)`.
    Access,
    /// `faccessat(dirfd, path, mode)`.
    FaccessAt,
    /// `faccessat2(dirfd, path, mode, flags)`.
    FaccessAt2,
}

/// What is asked about access.
#[derive(Clone, Copy, Debug, PartialEq, Eq, Structural)]
pub struct AccessRequest {
    pub dirfd: i64,
    pub path_address: u64,
    pub mode: u64,
    pub follow: bool,
}

/// What is asked about access.
pub open spec fn access_request(call: AccessCall, args: Seq<u64>) -> AccessRequest {
    AccessRequest {
        dirfd: if call is Access {
            AT_FDCWD as i64
        } else {
            args[0] as i64
        },
        path_address: if call is Access {
            args[0]
        } else {
            args[1]
        },
        mode: if call is Access {
            args[1]
        } else {
            args[2]
        },
        follow: !(call is FaccessAt2) || args[3] & AT_SYMLINK_NOFOLLOW == 0,
    }
}

/// Reads what is asked about access.
pub fn parse_access(call: AccessCall, args: &[u64; 6]) -> (request: AccessRequest)
    ensures
        request == access_request(call, args@),
{
    match call {
        AccessCall::Access => AccessRequest {
            dirfd: AT_FDCWD as i64,
            path_address: args[0],
            mode: args[1],
            follow: true,
        },
        AccessCall::FaccessAt => AccessRequest {
            dirfd: args[0] as i64,
            path_address: args[1],
            mode: args[2],
            follow: true,
        },
        AccessCall::FaccessAt2 => AccessRequest {
            dirfd: args[0] as i64,
            path_address: args[1],
            mode: args[2],
            follow: args[3] & AT_SYMLINK_NOFOLLOW == 0,
        },
    }
}

/// The permissions of a directory that an access asks for.
pub open spec fn access_permissions(mode: u64, is_directory: bool) -> u32 {
    if !is_directory {
        0
    } else {
        (if mode & R_OK != 0 { OWNER_READ } else { 0 }) | (if mode & X_OK != 0 { OWNER_EXECUTE } else { 0 })
    }
}

/// The permissions of a directory that an access asks for.
pub fn access_leaf_bits(mode: u64, is_directory: bool) -> (bits: u32)
    ensures
        bits == access_permissions(mode, is_directory),
{
    if !is_directory {
        return 0;
    }
    let readable: u32 = if mode & R_OK != 0 { OWNER_READ } else { 0 };
    let searchable: u32 = if mode & X_OK != 0 { OWNER_EXECUTE } else { 0 };
    readable | searchable
}

/// The calls that ask for the metadata of a path.
#[derive(Clone, Copy, Debug, PartialEq, Eq, Structural)]
pub enum StatCall {
    /// `newfstatat(dirfd, path, statbuf, flags)`.
    NewFstatAt,
    /// `faccessat(dirfd, path, mode, flags)` and its successor.
    FaccessAt,
    /// `stat(path, statbuf)`.
    Stat,
    /// `lstat(path, statbuf)`.
    Lstat,
    /// `access(path, mode)`.
    Access,
}

/// What is asked about the metadata of a path.
#[derive(Clone, Copy, Debug, PartialEq, Eq, Structural)]
pub struct StatRequest {
    pub dirfd: i64,
    pub path_address: u64,
    pub buffer: u64,
    pub follow: bool,
    /// Whether an empty path means the descriptor.
    pub allows_empty: bool,
    /// Whether only existence is asked for.
    pub only_exists: bool,
}

/// Whether a call has its path first, without a directory or flags.
pub open spec fn is_legacy(call: StatCall) -> bool {
    call is Stat || call is Lstat || call is Access
}

/// What is asked about the metadata of a path.
pub open spec fn stat_request(call: StatCall, args: Seq<u64>) -> StatRequest {
    if is_legacy(call) {
        StatRequest {
            dirfd: AT_FDCWD as i64,
            path_address: args[0],
            buffer: args[1],
            follow: !(call is Lstat),
            allows_empty: false,
            only_exists: call is Access,
        }
    } else {
        StatRequest {
            dirfd: args[0] as i64,
            path_address: args[1],
            buffer: args[2],
            follow: args[3] & AT_SYMLINK_NOFOLLOW == 0,
            allows_empty: call is NewFstatAt && args[3] & AT_EMPTY_PATH != 0,
            only_exists: call is FaccessAt,
        }
    }
}

/// Reads what is asked about the metadata of a path.
pub fn parse_stat(call: StatCall, args: &[u64; 6]) -> (request: StatRequest)
    ensures
        request == stat_request(call, args@),
{
    if call == StatCall::Stat || call == StatCall::Lstat || call == StatCall::Access {
        StatRequest {
            dirfd: AT_FDCWD as i64,
            path_address: args[0],
            buffer: args[1],
            follow: call != StatCall::Lstat,
            allows_empty: false,
            only_exists: call == StatCall::Access,
        }
    } else {
        StatRequest {
            dirfd: args[0] as i64,
            path_address: args[1],
            buffer: args[2],
            follow: args[3] & AT_SYMLINK_NOFOLLOW == 0,
            allows_empty: call == StatCall::NewFstatAt && args[3] & AT_EMPTY_PATH != 0,
            only_exists: call == StatCall::FaccessAt,
        }
    }
}

/// What a request for metadata is about.
#[derive(Clone, Copy, Debug, PartialEq, Eq, Structural)]
pub enum StatTarget {
    /// The working directory itself.
    Cwd,
    /// A descriptor.
    Descriptor(i32),
    /// The path that was read.
    Path,
    /// Nothing that could be read.
    Unreadable,
}

/// What a request for metadata is about: an empty path can mean the directory
/// or the descriptor that it is followed from.
pub open spec fn stat_target(dirfd: i64, allows_empty: bool, address: u64, written: Option<Seq<u8>>) -> StatTarget {
    if allows_empty && (address == 0 || (written is Some && written->0.len() == 0)) {
        if dirfd as i32 == AT_FDCWD {
            StatTarget::Cwd
        } else {
            StatTarget::Descriptor(dirfd as i32)
        }
    } else if written is None {
        StatTarget::Unreadable
    } else {
        StatTarget::Path
    }
}

/// Tells what a request for metadata is about.
pub fn choose_stat_target(dirfd: i64, allows_empty: bool, address: u64, written: &Option<Vec<u8>>) -> (target:
    StatTarget)
    ensures
        target == stat_target(dirfd, allows_empty, address, paths::found_bytes(*written)),
{
    let empty = match written {
        Some(named) => named.len() == 0,
        None => false,
    };
    if allows_empty && (address == 0 || empty) {
        if dirfd as i32 == AT_FDCWD {
            return StatTarget::Cwd;
        }
        return StatTarget::Descriptor(dirfd as i32);
    }
    match written {
        Some(_) => StatTarget::Path,
        None => StatTarget::Unreadable,
    }
}

/// A file mode with the permissions that the branch keeps.
pub open spec fn with_logical_mode(mode: u32, logical: Option<u32>) -> u32 {
    match logical {
        Some(kept) => (mode & !0o7777u32) | kept,
        None => mode,
    }
}

/// Puts the permissions that the branch keeps into a file mode.
pub fn patch_mode(mode: u32, logical: Option<u32>) -> (patched: u32)
    ensures
        patched == with_logical_mode(mode, logical),
{
    match logical {
        Some(kept) => (mode & !0o7777u32) | kept,
        None => mode,
    }
}

/// Permissions that a branch keeps never change the type of a file, and replace
/// its permissions.
pub proof fn law_kept_permissions_leave_the_type(mode: u32, kept: u32)
    requires
        kept <= 0o7777,
    ensures
        with_logical_mode(mode, Some(kept)) & S_IFMT == mode & S_IFMT,
        with_logical_mode(mode, Some(kept)) & 0o7777 == kept,
{
    assert(((mode & !0o7777u32) | kept) & 0o170000 == mode & 0o170000) by (bit_vector)
        requires
            kept <= 0o7777,
    ;
    assert(((mode & !0o7777u32) | kept) & 0o7777 == kept) by (bit_vector)
        requires
            kept <= 0o7777,
    ;
}

/// The place of the file mode in extended metadata.
pub const STATX_MODE_OFFSET: usize = 28;

/// Extended metadata with the permissions that the branch keeps: the two bytes
/// of the mode change.
pub open spec fn patched_statx(buffer: Seq<u8>, logical: Option<u32>, order: ByteOrder) -> Seq<u8> {
    if logical is None || buffer.len() < STATX_MODE_OFFSET + 2 {
        buffer
    } else {
        let at = STATX_MODE_OFFSET as int;
        let current = byte_order::u16_in(buffer.subrange(at, at + 2), order);
        let bytes = byte_order::u16_image((current & !0o7777u16) | (logical->0 as u16), order);
        buffer.update(at, bytes[0]).update(at + 1, bytes[1])
    }
}

/// Puts the permissions that the branch keeps into extended metadata.
pub fn patch_statx_mode(buffer: &mut Vec<u8>, logical: Option<u32>, order: ByteOrder)
    ensures
        final(buffer)@ == patched_statx(old(buffer)@, logical, order),
{
    let mode = match logical {
        Some(mode) => mode,
        None => {
            return;
        },
    };
    if buffer.len() >= STATX_MODE_OFFSET + 2 {
        let current = read_u16(
            vstd::slice::slice_subrange(buffer.as_slice(), STATX_MODE_OFFSET, STATX_MODE_OFFSET + 2),
            order,
        );
        let patched: u16 = (current & !0o7777u16) | (mode as u16);
        let bytes = write_u16(patched, order);
        buffer.set(STATX_MODE_OFFSET, bytes[0]);
        buffer.set(STATX_MODE_OFFSET + 1, bytes[1]);
    }
}

/// What a branch says of an open directory.
pub struct DirectoryFacts {
    /// The permissions that the branch keeps for it.
    pub logical_mode: Option<u32>,
    pub has_changes: bool,
    /// Whether its path belongs to the branch, and its place there.
    pub matches: bool,
    pub rel: Option<Vec<u8>>,
}

/// The place of a directory that its branch does not name otherwise.
pub open spec fn here() -> Seq<u8> {
    path::dot()
}

/// The place in the branch of an open directory, or the answer that ends listing
/// it.
pub open spec fn listing_place(branch: Option<DirectoryFacts>, upper: Seq<u8>, actual: Seq<u8>) -> Result<Seq<u8>, Reply> {
    match branch {
        None => Err(Reply::Continue),
        Some(facts) => if facts.logical_mode is Some && facts.logical_mode->0 & OWNER_EXECUTE == 0 {
            Err(Reply::Errno(EACCES))
        } else if !facts.has_changes {
            Err(Reply::Continue)
        } else if facts.matches {
            match facts.rel {
                Some(rel) => Ok(rel@),
                None => Ok(here()),
            }
        } else if path::starts_with(path::parts(actual), path::parts(upper)) {
            let rest = path::way_bytes(path::parts(actual).skip(path::parts(upper).len() as int));
            if rest.len() == 0 {
                Ok(here())
            } else {
                Ok(rest)
            }
        } else {
            Err(Reply::Continue)
        },
    }
}

fn dot_bytes() -> (bytes: Vec<u8>)
    ensures
        bytes@ == here(),
{
    let bytes: Vec<u8> = vec![path::DOT];
    proof {
        assert(bytes@ =~= here());
    }
    bytes
}

/// Tells the place in the branch of an open directory that is listed.
pub fn settle_getdents(branch: &Option<DirectoryFacts>, upper: &[u8], actual: &[u8]) -> (result: Result<Vec<u8>, Reply>)
    ensures
        match listing_place(*branch, upper@, actual@) {
            Ok(place) => result matches Ok(found) && found@ == place,
            Err(reply) => result == Err::<Vec<u8>, Reply>(reply),
        },
{
    let facts = match branch {
        Some(facts) => facts,
        None => {
            return Err(Reply::Continue);
        },
    };
    match facts.logical_mode {
        Some(mode) => {
            if mode & OWNER_EXECUTE == 0 {
                return Err(Reply::Errno(EACCES));
            }
        },
        None => {},
    }
    if !facts.has_changes {
        return Err(Reply::Continue);
    }
    if facts.matches {
        return match &facts.rel {
            Some(rel) => Ok(copy_bytes(rel.as_slice())),
            None => Ok(dot_bytes()),
        };
    }
    match strip_prefix(actual, upper) {
        Some(rest) => {
            if rest.len() == 0 {
                Ok(dot_bytes())
            } else {
                Ok(rest)
            }
        },
        None => Err(Reply::Continue),
    }
}

/// Type of a directory entry.
#[derive(Clone, Copy, Debug, PartialEq, Eq, Structural)]
pub enum EntryType {
    Directory,
    Symlink,
    File,
}

/// The type of a directory entry: what leads to a directory counts as one.
pub fn entry_type(is_directory: bool, is_symlink: bool) -> (kind: EntryType)
    ensures
        kind == if is_directory {
            EntryType::Directory
        } else if is_symlink {
            EntryType::Symlink
        } else {
            EntryType::File
        },
{
    if is_directory {
        EntryType::Directory
    } else if is_symlink {
        EntryType::Symlink
    } else {
        EntryType::File
    }
}

/// What was seen of a name in one layer of a directory. Only `is_symlink` and `inode` are
/// those of the name itself; the others follow it.
#[derive(Clone, Copy, Debug, PartialEq, Eq, Structural)]
pub struct LayerLook {
    pub exists: bool,
    pub is_directory: bool,
    pub is_symlink: bool,
    pub inode: Option<u64>,
}

/// A name of a merged directory, and what was seen of it in both layers.
#[derive(Debug)]
pub struct NameLook {
    pub name: Vec<u8>,
    pub upper: LayerLook,
    pub lower: LayerLook,
}

/// What a directory record says.
#[derive(Debug)]
pub struct RecordPlan {
    pub name: Vec<u8>,
    pub offset: u64,
    pub in_upper: bool,
    pub kind: EntryType,
    pub inode: u64,
}

/// What a directory record says.
#[verifier::ext_equal]
pub struct RecordView {
    pub name: Seq<u8>,
    pub offset: int,
    pub in_upper: bool,
    pub kind: EntryType,
    pub inode: u64,
}

impl View for RecordPlan {
    type V = RecordView;

    open spec fn view(&self) -> RecordView {
        RecordView {
            name: self.name@,
            offset: self.offset as int,
            in_upper: self.in_upper,
            kind: self.kind,
            inode: self.inode,
        }
    }
}

/// What directory records say.
pub open spec fn record_views(records: Seq<RecordPlan>) -> Seq<RecordView> {
    Seq::new(records.len(), |i: int| records[i]@)
}

/// The type of a name in a layer: what leads to a directory counts as one.
pub open spec fn type_of(look: LayerLook) -> EntryType {
    if look.is_directory {
        EntryType::Directory
    } else if look.is_symlink {
        EntryType::Symlink
    } else {
        EntryType::File
    }
}

/// The record of the name at a place of a merged directory. The upper layer counts where
/// it has the name, be it a link that leads nowhere. Places are counted from one.
pub open spec fn record_at(look: NameLook, place: int) -> RecordView {
    let in_upper = look.upper.exists || look.upper.is_symlink;
    let layer = if in_upper {
        look.upper
    } else {
        look.lower
    };
    RecordView {
        name: look.name@,
        offset: place + 1,
        in_upper,
        kind: type_of(layer),
        inode: match layer.inode {
            Some(inode) => inode,
            None => 0,
        },
    }
}

/// The records of a merged directory, in the order of its names.
pub open spec fn records_of(names: Seq<NameLook>) -> Seq<RecordView> {
    Seq::new(names.len(), |i: int| record_at(names[i], i))
}

/// Plans the records of a merged directory.
pub fn plan_records(names: &Vec<NameLook>) -> (records: Vec<RecordPlan>)
    ensures
        record_views(records@) == records_of(names@),
{
    let mut records: Vec<RecordPlan> = Vec::new();
    let mut i: usize = 0;
    while i < names.len()
        invariant
            i <= names@.len(),
            records@.len() == i,
            forall|j: int| 0 <= j < i ==> (#[trigger] records@[j])@ == record_at(names@[j], j),
        decreases names@.len() - i,
    {
        let look = &names[i];
        let in_upper = look.upper.exists || look.upper.is_symlink;
        let layer = if in_upper {
            look.upper
        } else {
            look.lower
        };
        let offset: u64 = i as u64 + 1;
        records.push(
            RecordPlan {
                name: copy_bytes(look.name.as_slice()),
                offset,
                in_upper,
                kind: entry_type(layer.is_directory, layer.is_symlink),
                inode: match layer.inode {
                    Some(inode) => inode,
                    None => 0,
                },
            },
        );
        i = i + 1;
    }
    proof {
        assert(record_views(records@) =~= records_of(names@));
    }
    records
}

/// The records that could be made; a name without one is left out.
pub open spec fn made_records(built: Seq<Option<Vec<u8>>>) -> Seq<Seq<u8>>
    decreases built.len(),
{
    if built.len() == 0 {
        Seq::empty()
    } else {
        let before = made_records(built.drop_last());
        match built.last() {
            Some(record) => before.push(record@),
            None => before,
        }
    }
}

/// Keeps the records that could be made.
pub fn keep_records(built: &Vec<Option<Vec<u8>>>) -> (records: Vec<Vec<u8>>)
    ensures
        path::byte_views(records@) == made_records(built@),
{
    let mut records: Vec<Vec<u8>> = Vec::new();
    let mut i: usize = 0;
    proof {
        assert(built@.take(0) =~= Seq::<Option<Vec<u8>>>::empty());
        assert(path::byte_views(records@) =~= Seq::<Seq<u8>>::empty());
    }
    while i < built.len()
        invariant
            i <= built@.len(),
            path::byte_views(records@) == made_records(built@.take(i as int)),
        decreases built@.len() - i,
    {
        proof {
            assert(built@.take(i as int + 1).drop_last() =~= built@.take(i as int));
            assert(built@.take(i as int + 1).last() == built@[i as int]);
        }
        match &built[i] {
            Some(record) => {
                let copy = copy_bytes(record.as_slice());
                let ghost before = path::byte_views(records@);
                let ghost added = copy@;
                records.push(copy);
                proof {
                    assert(path::byte_views(records@) =~= before.push(added));
                }
            },
            None => {},
        }
        i = i + 1;
    }
    proof {
        assert(built@.take(i as int) =~= built@);
    }
    records
}

/// What is left to be listed of an open directory.
pub struct DirectoryCache {
    /// The directory that was listed.
    pub target: Vec<u8>,
    /// The records that were not handed out yet.
    pub entries: Vec<Vec<u8>>,
}

/// What is done with what is left to be listed.
#[derive(Clone, Copy, Debug, PartialEq, Eq, Structural)]
pub enum CacheStep {
    /// The directory is listed anew.
    Build,
    /// More records are handed out.
    Use,
    /// Everything was handed out: the end is told, and the next listing starts
    /// anew.
    End,
}

/// What is done with what is left to be listed.
pub fn check_cache(cache: &Option<DirectoryCache>, target: &[u8]) -> (step: CacheStep)
    ensures
        step == match *cache {
            None => CacheStep::Build,
            Some(held) => if held.target@ != target@ {
                CacheStep::Build
            } else if held.entries@.len() == 0 {
                CacheStep::End
            } else {
                CacheStep::Use
            },
        },
{
    match cache {
        None => CacheStep::Build,
        Some(held) => {
            if !bytes_equal(held.target.as_slice(), target) {
                CacheStep::Build
            } else if held.entries.len() == 0 {
                CacheStep::End
            } else {
                CacheStep::Use
            }
        },
    }
}

/// Some records, one behind the other.
pub open spec fn concatenated(records: Seq<Seq<u8>>) -> Seq<u8>
    decreases records.len(),
{
    if records.len() == 0 {
        Seq::empty()
    } else {
        concatenated(records.drop_last()) + records.last()
    }
}

/// Whether as many records as fit are handed out: the next one would not fit.
pub open spec fn fills(records: Seq<Seq<u8>>, count: int, room: int) -> bool {
    &&& 0 <= count <= records.len()
    &&& concatenated(records.take(count)).len() <= room
    &&& count < records.len() ==> concatenated(records.take(count + 1)).len() > room
}

impl DirectoryCache {
    /// Hands out as many whole records as fit, and keeps the rest.
    pub fn drain(&mut self, buffer_size: usize) -> (bytes: Vec<u8>)
        ensures
            final(self).target == old(self).target,
            exists|count: int| #[trigger]
                fills(path::byte_views(old(self).entries@), count, buffer_size as int) && {
                    &&& bytes@ == concatenated(path::byte_views(old(self).entries@).take(count))
                    &&& path::byte_views(final(self).entries@) == path::byte_views(old(self).entries@).skip(count)
                },
    {
        let ghost records = path::byte_views(self.entries@);
        let mut bytes: Vec<u8> = Vec::new();
        let mut count: usize = 0;
        proof {
            assert(records.take(0) =~= Seq::<Seq<u8>>::empty());
        }
        while count < self.entries.len() && bytes.len() <= buffer_size && self.entries[count].len() <= buffer_size
            - bytes.len()
            invariant
                count <= self.entries@.len(),
                records == path::byte_views(self.entries@),
                bytes@ == concatenated(records.take(count as int)),
                bytes@.len() <= buffer_size,
            decreases self.entries@.len() - count,
        {
            proof {
                assert(records.take(count as int + 1).drop_last() =~= records.take(count as int));
                assert(records.take(count as int + 1).last() == self.entries@[count as int]@);
            }
            append_bytes(&mut bytes, self.entries[count].as_slice());
            count = count + 1;
        }
        proof {
            if count < records.len() {
                assert(records.take(count as int + 1).drop_last() =~= records.take(count as int));
                assert(records.take(count as int + 1).last() == self.entries@[count as int]@);
            }
            assert(fills(records, count as int, buffer_size as int));
        }
        let mut rest: Vec<Vec<u8>> = Vec::new();
        let mut i: usize = count;
        while i < self.entries.len()
            invariant
                count <= i <= self.entries@.len(),
                records == path::byte_views(self.entries@),
                path::byte_views(rest@) == records.subrange(count as int, i as int),
            decreases self.entries@.len() - i,
        {
            let record = copy_bytes(self.entries[i].as_slice());
            let ghost before = path::byte_views(rest@);
            let ghost added = record@;
            rest.push(record);
            proof {
                assert(path::byte_views(rest@) =~= before.push(added));
                assert(records.subrange(count as int, i + 1) =~= records.subrange(count as int, i as int).push(
                    records[i as int],
                ));
            }
            i = i + 1;
        }
        proof {
            assert(records.subrange(count as int, i as int) =~= records.skip(count as int));
        }
        self.entries = rest;
        bytes
    }
}

/// Handing out records in parts loses none and repeats none: what one listing
/// hands out and what is left are the records that there were.
pub proof fn law_listing_hands_out_every_record(records: Seq<Seq<u8>>, count: int)
    requires
        0 <= count <= records.len(),
    ensures
        concatenated(records.take(count)) + concatenated(records.skip(count)) == concatenated(records),
    decreases records.len() - count,
{
    if count == records.len() {
        assert(records.take(count) =~= records);
        assert(records.skip(count) =~= Seq::<Seq<u8>>::empty());
        assert(concatenated(records) + Seq::<u8>::empty() =~= concatenated(records));
    } else {
        law_listing_hands_out_every_record(records.drop_last(), count);
        assert(records.drop_last().take(count) =~= records.take(count));
        assert(records.drop_last().skip(count) =~= records.skip(count).drop_last());
        assert(records.skip(count).last() == records.last());
        let head = concatenated(records.take(count));
        let middle = concatenated(records.skip(count).drop_last());
        assert(head + (middle + records.last()) =~= (head + middle) + records.last());
    }
}

pub const OWN_FD_PREFIX: &'static str = "/proc/self/fd/";

/// The path of an own descriptor, with the zero byte that ends it.
pub open spec fn own_fd_path(fd: int) -> Seq<u8> {
    (OWN_FD_PREFIX.spec_bytes() + text::decimal_digits(fd)).push(0)
}

/// The path argument that leads a process through a descriptor: it must fit
/// where the old path and its zero byte stood.
pub fn rewrite_to_fd(old_path: &[u8], fd: u32) -> (result: Result<Vec<u8>, Reply>)
    ensures
        if own_fd_path(fd as int).len() <= old_path@.len() + 1 {
            result matches Ok(rewritten) && rewritten@ == own_fd_path(fd as int)
        } else {
            result == Err::<Vec<u8>, Reply>(Reply::Errno(ENOENT))
        },
{
    let mut rewritten = copy_bytes(OWN_FD_PREFIX.as_bytes());
    let number = text::decimal(fd as u64);
    append_bytes(&mut rewritten, number.as_slice());
    rewritten.push(0);
    if rewritten.len() - 1 > old_path.len() {
        return Err(Reply::Errno(ENOENT));
    }
    Ok(rewritten)
}

/// The name under which a task knows a working directory of the upper layer, as text.
pub open spec fn shown_cwd(layers: Layers, actual: Option<Seq<u8>>) -> Option<Seq<u8>> {
    match actual {
        Some(cwd) => if path::starts_with(path::parts(cwd), path::parts(layers.upper@)) {
            Some(
                text::lossy_text(
                    path::joined_path(
                        layers.workdir@,
                        path::way_bytes(path::parts(cwd).skip(path::parts(layers.upper@).len() as int)),
                    ),
                ),
            )
        } else {
            None
        },
        None => None,
    }
}

/// Tells the name under which a task knows a working directory of the upper layer.
pub fn show_cwd(layers: &Layers, actual: &Option<Vec<u8>>) -> (shown: Option<Vec<u8>>)
    ensures
        paths::found_bytes(shown) == shown_cwd(*layers, paths::found_bytes(*actual)),
{
    match actual {
        Some(cwd) => match strip_prefix(cwd.as_slice(), layers.upper.as_slice()) {
            Some(rest) => {
                let shown = crate::path::join_path(layers.workdir.as_slice(), rest.as_slice());
                Some(text::lossy(shown.as_slice()))
            },
            None => None,
        },
        None => None,
    }
}

} // verus!
