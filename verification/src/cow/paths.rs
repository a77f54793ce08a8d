//! Where the paths of a stopped process lead.

use crate::path;
use crate::path::{append_bytes, bytes_equal, components, copy_bytes, split_pieces, starts_at_root, NormPath, Part};
use crate::sys::{
    EACCES, EBADF, EINVAL, ENOTDIR, EXDEV, OWNER_EXECUTE, RESOLVE_BENEATH, RESOLVE_IN_ROOT, S_IFDIR,
    S_IFMT,
};
use crate::text;
use crate::text::{find_line, has_prefix, is_text, parse_i32, parse_unsigned, position_of, trim};
use vstd::prelude::*;
use vstd::string::*;

verus! {

/// The size of a page of memory.
pub const PAGE_SIZE: u64 = 4096;

/// The most bytes of a path.
pub const PATH_LIMIT: usize = 4096;

/// Reading a path out of the memory of a process, page by page, so that no read
/// crosses into a page that may not be there.
pub struct PathReader {
    pub address: u64,
    pub collected: Vec<u8>,
}

/// The bytes in front of the first zero byte.
pub open spec fn before_zero(bytes: Seq<u8>) -> Seq<u8> {
    bytes.take(text::find_byte(bytes, 0, 0))
}

/// Whether a byte is zero.
pub open spec fn holds_zero(bytes: Seq<u8>) -> bool {
    text::find_byte(bytes, 0, 0) < bytes.len()
}

impl PathReader {
    /// Starts reading at an address; there is no path at the null address.
    pub fn begin(address: u64) -> (reader: Option<PathReader>)
        ensures
            match reader {
                Some(started) => address != 0 && started.address == address && started.collected@.len() == 0,
                None => address == 0,
            },
    {
        if address == 0 {
            None
        } else {
            Some(PathReader { address, collected: Vec::new() })
        }
    }

    /// What is to be read next: an address and a length.
    pub fn next(&self) -> (read: Option<(u64, usize)>)
        ensures
            match read {
                Some((address, length)) => {
                    &&& self.collected@.len() < PATH_LIMIT
                    &&& address == self.address
                    &&& 0 < length <= PATH_LIMIT - self.collected@.len()
                    &&& address % PAGE_SIZE + length <= PAGE_SIZE
                    &&& length == PATH_LIMIT - self.collected@.len() || address % PAGE_SIZE + length == PAGE_SIZE
                },
                None => self.collected@.len() >= PATH_LIMIT,
            },
    {
        if self.collected.len() >= PATH_LIMIT {
            return None;
        }
        let in_page: u64 = PAGE_SIZE - self.address % PAGE_SIZE;
        let left: u64 = (PATH_LIMIT - self.collected.len()) as u64;
        if in_page < left {
            Some((self.address, in_page as usize))
        } else {
            Some((self.address, left as usize))
        }
    }

    /// Takes what was read; says whether the path ends in it.
    pub fn push(&mut self, bytes: &[u8]) -> (ended: bool)
        ensures
            ended == holds_zero(bytes@),
            final(self).collected@ == old(self).collected@ + before_zero(bytes@),
            !ended ==> final(self).address == (old(self).address + bytes@.len()) % 0x1_0000_0000_0000_0000,
    {
        let end = position_of(bytes, 0, 0);
        let part = vstd::slice::slice_subrange(bytes, 0, end);
        proof {
            assert(bytes@.subrange(0, end as int) =~= before_zero(bytes@));
        }
        append_bytes(&mut self.collected, part);
        if end < bytes.len() {
            return true;
        }
        self.address = self.address.wrapping_add(bytes.len() as u64);
        false
    }

    /// The path, where it is valid text.
    pub fn finish(self) -> (path: Option<Vec<u8>>)
        ensures
            match path {
                Some(found) => vstd::utf8::valid_utf8(self.collected@) && found@ == self.collected@,
                None => !vstd::utf8::valid_utf8(self.collected@),
            },
    {
        if is_text(self.collected.as_slice()) {
            Some(self.collected)
        } else {
            None
        }
    }
}

pub const DEV_FD: &'static str = "/dev/fd/";

pub const DEV_STDIN: &'static str = "/dev/stdin";

pub const DEV_STDOUT: &'static str = "/dev/stdout";

pub const DEV_STDERR: &'static str = "/dev/stderr";

pub const PROC_SELF_FD: &'static str = "/proc/self/fd/";

pub const PROC_THREAD_SELF_FD: &'static str = "/proc/thread-self/fd/";

pub const PROC_PREFIX: &'static str = "/proc/";

pub const PROC_NAME: &'static str = "proc";

pub const FD_NAME: &'static str = "fd";

/// A path that names a descriptor through a filesystem.
#[verifier::ext_equal]
pub enum Magic {
    /// A descriptor of the process itself, and what follows it.
    Own { fd: int, tail: Seq<u8> },
    /// A descriptor under a path of the process filesystem, and what follows it.
    Listed { link: Seq<u8>, tail: Seq<u8> },
}

/// A path that names a descriptor through a filesystem.
pub enum MagicFd {
    Own { fd: i32, tail: Vec<u8> },
    Listed { link: Vec<u8>, tail: Vec<u8> },
}

impl View for MagicFd {
    type V = Magic;

    open spec fn view(&self) -> Magic {
        match self {
            MagicFd::Own { fd, tail } => Magic::Own { fd: *fd as int, tail: tail@ },
            MagicFd::Listed { link, tail } => Magic::Listed { link: link@, tail: tail@ },
        }
    }
}

/// A descriptor number, where bytes are one.
pub open spec fn fd_number(bytes: Seq<u8>) -> Option<int> {
    match text::signed(bytes) {
        Some(value) if i32::MIN <= value <= i32::MAX => Some(value),
        _ => None,
    }
}

/// A descriptor number up to the first separator, and what follows.
pub open spec fn own_fd(rest: Seq<u8>) -> Option<Magic> {
    let end = text::find_byte(rest, path::SEPARATOR, 0);
    match fd_number(rest.take(end)) {
        Some(fd) => Some(
            Magic::Own {
                fd,
                tail: if end < rest.len() {
                    rest.skip(end + 1)
                } else {
                    Seq::empty()
                },
            },
        ),
        None => None,
    }
}

/// A path without the separators that it starts with.
pub open spec fn without_roots(bytes: Seq<u8>) -> Seq<u8>
    decreases bytes.len(),
{
    if bytes.len() > 0 && bytes[0] == path::SEPARATOR {
        without_roots(bytes.skip(1))
    } else {
        bytes
    }
}

/// The place of a piece among others; their number where it is not there.
pub open spec fn find_piece(pieces: Seq<Seq<u8>>, piece: Seq<u8>, from: int) -> int
    decreases pieces.len() - from,
{
    if from < 0 || from >= pieces.len() {
        pieces.len() as int
    } else if pieces[from] == piece {
        from
    } else {
        find_piece(pieces, piece, from + 1)
    }
}

/// A descriptor under a path of the process filesystem.
pub open spec fn listed_fd(written: Seq<u8>) -> Option<Magic> {
    let pieces = path::pieces(without_roots(written));
    let at = find_piece(pieces, FD_NAME.spec_bytes(), 0);
    if at + 1 < pieces.len() && pieces[0] == PROC_NAME.spec_bytes() && fd_number(pieces[at + 1]) is Some {
        Some(
            Magic::Listed {
                link: seq![path::SEPARATOR] + path::joined(pieces.take(at + 2)),
                tail: path::joined(pieces.skip(at + 2)),
            },
        )
    } else {
        None
    }
}

/// The descriptor that a path names through a filesystem.
pub open spec fn magic_of(written: Seq<u8>) -> Option<Magic> {
    if text::begins_with(written, DEV_FD.spec_bytes()) {
        own_fd(written.skip(DEV_FD.spec_bytes().len() as int))
    } else if written == DEV_STDIN.spec_bytes() {
        Some(Magic::Own { fd: 0, tail: Seq::empty() })
    } else if written == DEV_STDOUT.spec_bytes() {
        Some(Magic::Own { fd: 1, tail: Seq::empty() })
    } else if written == DEV_STDERR.spec_bytes() {
        Some(Magic::Own { fd: 2, tail: Seq::empty() })
    } else if text::begins_with(written, PROC_SELF_FD.spec_bytes()) {
        own_fd(written.skip(PROC_SELF_FD.spec_bytes().len() as int))
    } else if text::begins_with(written, PROC_THREAD_SELF_FD.spec_bytes()) {
        own_fd(written.skip(PROC_THREAD_SELF_FD.spec_bytes().len() as int))
    } else {
        listed_fd(written)
    }
}

/// A descriptor number up to the first separator, from a place on.
fn read_own_fd(written: &[u8], from: usize) -> (result: Option<MagicFd>)
    requires
        from <= written@.len(),
    ensures
        match result {
            Some(found) => own_fd(written@.skip(from as int)) == Some(found@),
            None => own_fd(written@.skip(from as int)) is None,
        },
{
    let rest = vstd::slice::slice_subrange(written, from, written.len());
    proof {
        assert(rest@ =~= written@.skip(from as int));
    }
    let end = position_of(rest, path::SEPARATOR, 0);
    let head = vstd::slice::slice_subrange(rest, 0, end);
    proof {
        assert(head@ =~= rest@.take(end as int));
    }
    match parse_i32(head) {
        Some(fd) => {
            if end < rest.len() {
                let tail = vstd::slice::slice_to_vec(vstd::slice::slice_subrange(rest, end + 1, rest.len()));
                proof {
                    assert(tail@ =~= rest@.skip(end + 1));
                }
                Some(MagicFd::Own { fd, tail })
            } else {
                let tail: Vec<u8> = Vec::new();
                proof {
                    assert(tail@ =~= Seq::<u8>::empty());
                }
                Some(MagicFd::Own { fd, tail })
            }
        },
        None => None,
    }
}

/// A path without the separators that it starts with.
fn strip_roots(written: &[u8]) -> (rest: Vec<u8>)
    ensures
        rest@ == without_roots(written@),
{
    let mut from: usize = 0;
    proof {
        assert(written@.skip(0) =~= written@);
    }
    while from < written.len() && written[from] == path::SEPARATOR
        invariant
            from <= written@.len(),
            without_roots(written@) == without_roots(written@.skip(from as int)),
        decreases written@.len() - from,
    {
        proof {
            assert(written@.skip(from as int).skip(1) =~= written@.skip(from + 1));
        }
        from = from + 1;
    }
    let rest = vstd::slice::slice_to_vec(vstd::slice::slice_subrange(written, from, written.len()));
    proof {
        assert(rest@ =~= written@.skip(from as int));
    }
    rest
}

/// Some pieces, joined by separators.
fn join_pieces(pieces: &Vec<Vec<u8>>, from: usize, to: usize) -> (bytes: Vec<u8>)
    requires
        from <= to <= pieces@.len(),
    ensures
        bytes@ == path::joined(path::byte_views(pieces@).subrange(from as int, to as int)),
{
    let ghost all = path::byte_views(pieces@).subrange(from as int, to as int);
    let mut bytes: Vec<u8> = Vec::new();
    let mut i: usize = from;
    while i < to
        invariant
            from <= i <= to <= pieces@.len(),
            all == path::byte_views(pieces@).subrange(from as int, to as int),
            bytes@ == path::joined(all.take(i - from)),
        decreases to - i,
    {
        let ghost now = all.take(i - from + 1);
        proof {
            assert(now.drop_last() =~= all.take(i - from));
            assert(now.last() == pieces@[i as int]@);
        }
        if i > from {
            bytes.push(path::SEPARATOR);
        }
        let ghost stem = bytes@;
        append_bytes(&mut bytes, pieces[i].as_slice());
        proof {
            if i == from {
                assert(stem + now[0] =~= now[0]);
            }
        }
        i = i + 1;
    }
    proof {
        assert(all.take(i - from) =~= all);
    }
    bytes
}

proof fn lemma_find_piece(pieces: Seq<Seq<u8>>, piece: Seq<u8>, from: int, at: int)
    requires
        0 <= from <= at <= pieces.len(),
        forall|i: int| from <= i < at ==> pieces[i] != piece,
        at == pieces.len() || pieces[at] == piece,
    ensures
        find_piece(pieces, piece, from) == at,
    decreases at - from,
{
    if from < at {
        lemma_find_piece(pieces, piece, from + 1, at);
    }
}

/// The place of a piece among others; their number where it is not there.
fn place_of_piece(pieces: &Vec<Vec<u8>>, piece: &[u8]) -> (at: usize)
    ensures
        at == find_piece(path::byte_views(pieces@), piece@, 0),
        at <= pieces@.len(),
{
    let ghost views = path::byte_views(pieces@);
    let mut at: usize = 0;
    while at < pieces.len() && !bytes_equal(pieces[at].as_slice(), piece)
        invariant
            at <= pieces@.len(),
            views == path::byte_views(pieces@),
            forall|i: int| 0 <= i < at ==> views[i] != piece@,
        decreases pieces@.len() - at,
    {
        proof {
            assert(views[at as int] == pieces@[at as int]@);
        }
        at = at + 1;
    }
    proof {
        if at < pieces@.len() {
            assert(views[at as int] == pieces@[at as int]@);
        }
        lemma_find_piece(views, piece@, 0, at as int);
    }
    at
}

/// A descriptor under a path of the process filesystem.
fn read_listed_fd(written: &[u8]) -> (result: Option<MagicFd>)
    ensures
        match result {
            Some(found) => listed_fd(written@) == Some(found@),
            None => listed_fd(written@) is None,
        },
{
    let stripped = strip_roots(written);
    let pieces = split_pieces(stripped.as_slice());
    let ghost views = path::pieces(without_roots(written@));
    let at = place_of_piece(&pieces, FD_NAME.as_bytes());
    proof {
        assert(views.len() == pieces@.len());
    }
    if pieces.len() < 2 || at >= pieces.len() - 1 {
        return None;
    }
    proof {
        assert(views[0] == pieces@[0]@);
        assert(views[at + 1] == pieces@[at + 1]@);
    }
    if !bytes_equal(pieces[0].as_slice(), PROC_NAME.as_bytes()) {
        return None;
    }
    match parse_i32(pieces[at + 1].as_slice()) {
        Some(_) => {
            let mut link: Vec<u8> = vec![path::SEPARATOR];
            let names = join_pieces(&pieces, 0, at + 2);
            append_bytes(&mut link, names.as_slice());
            let tail = join_pieces(&pieces, at + 2, pieces.len());
            proof {
                assert(views.subrange(0, at + 2) =~= views.take(at + 2));
                assert(views.subrange(at + 2, views.len() as int) =~= views.skip(at + 2));
                assert(link@ =~= seq![path::SEPARATOR] + path::joined(views.take(at + 2)));
            }
            Some(MagicFd::Listed { link, tail })
        },
        None => None,
    }
}

/// The descriptor that a path names through a filesystem.
pub fn magic_fd(written: &[u8]) -> (result: Option<MagicFd>)
    ensures
        match result {
            Some(found) => magic_of(written@) == Some(found@),
            None => magic_of(written@) is None,
        },
{
    if has_prefix(written, DEV_FD.as_bytes()) {
        return read_own_fd(written, DEV_FD.as_bytes().len());
    }
    let none: Vec<u8> = Vec::new();
    proof {
        assert(none@ =~= Seq::<u8>::empty());
    }
    if bytes_equal(written, DEV_STDIN.as_bytes()) {
        return Some(MagicFd::Own { fd: 0, tail: none });
    }
    if bytes_equal(written, DEV_STDOUT.as_bytes()) {
        return Some(MagicFd::Own { fd: 1, tail: none });
    }
    if bytes_equal(written, DEV_STDERR.as_bytes()) {
        return Some(MagicFd::Own { fd: 2, tail: none });
    }
    if has_prefix(written, PROC_SELF_FD.as_bytes()) {
        return read_own_fd(written, PROC_SELF_FD.as_bytes().len());
    }
    if has_prefix(written, PROC_THREAD_SELF_FD.as_bytes()) {
        return read_own_fd(written, PROC_THREAD_SELF_FD.as_bytes().len());
    }
    read_listed_fd(written)
}

/// Whether a path may name a descriptor through a filesystem.
pub open spec fn may_be_magic(written: Seq<u8>) -> bool {
    ||| text::begins_with(written, DEV_FD.spec_bytes())
    ||| written == DEV_STDIN.spec_bytes()
    ||| written == DEV_STDOUT.spec_bytes()
    ||| written == DEV_STDERR.spec_bytes()
    ||| text::begins_with(written, PROC_PREFIX.spec_bytes()) && find_piece(
        path::pieces(without_roots(written)),
        FD_NAME.spec_bytes(),
        0,
    ) < path::pieces(without_roots(written)).len()
}

/// Whether a path may name a descriptor through a filesystem.
pub fn is_magic_fd_path(written: &[u8]) -> (result: bool)
    ensures
        result == may_be_magic(written@),
{
    if has_prefix(written, DEV_FD.as_bytes()) || bytes_equal(written, DEV_STDIN.as_bytes()) || bytes_equal(
        written,
        DEV_STDOUT.as_bytes(),
    ) || bytes_equal(written, DEV_STDERR.as_bytes()) {
        return true;
    }
    if !has_prefix(written, PROC_PREFIX.as_bytes()) {
        return false;
    }
    let stripped = strip_roots(written);
    let pieces = split_pieces(stripped.as_slice());
    let at = place_of_piece(&pieces, FD_NAME.as_bytes());
    proof {
        assert(path::byte_views(pieces@).len() == pieces@.len());
    }
    at < pieces.len()
}

/// Where a path leads. For an absolute path `found` is what the descriptor that
/// it names leads to; for any other it is the directory that it is followed
/// from. Where a directory is not known the path stays as it was written.
pub open spec fn resolved(written: Seq<u8>, found: Option<Seq<u8>>) -> Seq<u8> {
    if path::is_absolute(written) {
        match (magic_of(written), found) {
            (Some(Magic::Own { tail, .. }), Some(base)) => path::rendered(path::normal_from(base, tail)),
            (Some(Magic::Listed { tail, .. }), Some(base)) => path::rendered(path::normal_from(base, tail)),
            _ => path::rendered(path::normal(written)),
        }
    } else {
        match found {
            Some(base) => path::rendered(path::normal_from(base, written)),
            None => written,
        }
    }
}

/// What optional bytes hold.
pub open spec fn found_bytes(found: Option<Vec<u8>>) -> Option<Seq<u8>> {
    match found {
        Some(bytes) => Some(bytes@),
        None => None,
    }
}

/// Tells where a path leads.
pub fn resolve_at_path(written: &[u8], found: &Option<Vec<u8>>) -> (leads: Vec<u8>)
    ensures
        leads@ == resolved(written@, found_bytes(*found)),
{
    if starts_at_root(written) {
        match (magic_fd(written), found) {
            (Some(MagicFd::Own { tail, .. }), Some(base)) => {
                NormPath::of(base.as_slice()).followed_by(tail.as_slice()).to_bytes()
            },
            (Some(MagicFd::Listed { tail, .. }), Some(base)) => {
                NormPath::of(base.as_slice()).followed_by(tail.as_slice()).to_bytes()
            },
            _ => NormPath::of(written).to_bytes(),
        }
    } else {
        match found {
            Some(base) => NormPath::of(base.as_slice()).followed_by(written).to_bytes(),
            None => copy_bytes(written),
        }
    }
}

/// Whether `..` leads above the place that a way starts from.
pub open spec fn escapes(way: Seq<Part>) -> bool
    decreases way.len(),
{
    way.len() > 0 && (escapes(way.drop_last()) || (way.last() is Parent && path::follow_all(
        path::nowhere(),
        way.drop_last(),
    ).names.len() == 0))
}

proof fn lemma_escape_stays(way: Seq<Part>, few: int)
    requires
        0 <= few <= way.len(),
        escapes(way.take(few)),
    ensures
        escapes(way),
    decreases way.len(),
{
    if few < way.len() {
        assert(way.drop_last().take(few) =~= way.take(few));
        lemma_escape_stays(way.drop_last(), few);
    } else {
        assert(way.take(few) =~= way);
    }
}

/// Whether `..` leads above the place that a path starts from.
fn leads_above(written: &[u8]) -> (result: bool)
    ensures
        result == escapes(path::parts(written@)),
{
    let way = components(written);
    let ghost all = path::parts(written@);
    let mut depth: usize = 0;
    let mut i: usize = 0;
    proof {
        assert(all.take(0) =~= Seq::<Part>::empty());
    }
    while i < way.len()
        invariant
            i <= way@.len(),
            depth <= i,
            all == path::parts(written@),
            path::part_views(way@) == all,
            depth == path::follow_all(path::nowhere(), all.take(i as int)).names.len(),
            !escapes(all.take(i as int)),
        decreases way@.len() - i,
    {
        proof {
            assert(all.take(i as int + 1).drop_last() =~= all.take(i as int));
            assert(all.take(i as int + 1).last() == all[i as int]);
            assert(all[i as int] == way@[i as int]@);
        }
        match &way[i] {
            path::Component::Root => {
                depth = 0;
            },
            path::Component::Current => {},
            path::Component::Parent => {
                if depth == 0 {
                    proof {
                        lemma_escape_stays(all, i as int + 1);
                    }
                    return true;
                }
                depth = depth - 1;
            },
            path::Component::Name(_) => {
                depth = depth + 1;
            },
        }
        i = i + 1;
    }
    proof {
        assert(all.take(i as int) =~= all);
    }
    false
}

/// Where a bounded path leads, and the directory that bounds it.
pub struct BoundedPath {
    pub path: Vec<u8>,
    pub base: Option<Vec<u8>>,
}

/// Why a bounded path is refused.
pub open spec fn bounded_fault(written: Seq<u8>, resolve: u64, found: Option<Seq<u8>>) -> Option<i32> {
    let beneath = resolve & RESOLVE_BENEATH != 0;
    let in_root = resolve & RESOLVE_IN_ROOT != 0;
    if beneath && in_root {
        Some(EINVAL)
    } else if !beneath && !in_root {
        None
    } else if beneath && path::is_absolute(written) {
        Some(EXDEV)
    } else if found is None {
        Some(EBADF)
    } else if beneath && escapes(path::parts(written)) {
        Some(EXDEV)
    } else {
        None
    }
}

/// Where a path leads that may not leave a directory: `..` at the directory
/// stays there.
pub open spec fn bounded_norm(written: Seq<u8>, base: Seq<u8>) -> path::Norm {
    path::Norm {
        absolute: path::normal(base).absolute,
        names: path::normal(base).names + path::normal(written).names,
    }
}

/// Tells the lexical part of a bounded open: a path that is bound beneath a
/// directory is refused where `..` leads out of it; one that takes the directory
/// for its root stays in it. `plain` is where the path leads unbounded, `found`
/// the directory.
pub fn resolve_openat2_lexical_path(written: &[u8], resolve: u64, found: &Option<Vec<u8>>, plain: Vec<u8>) -> (result:
    Result<BoundedPath, i32>)
    ensures
        match bounded_fault(written@, resolve, found_bytes(*found)) {
            Some(errno) => result == Err::<BoundedPath, i32>(errno),
            None => result matches Ok(leads) && if resolve & RESOLVE_BENEATH != 0 || resolve & RESOLVE_IN_ROOT != 0 {
                &&& leads.path@ == path::rendered(bounded_norm(written@, found_bytes(*found)->0))
                &&& found_bytes(leads.base) == found_bytes(*found)
            } else {
                leads.path == plain && leads.base is None
            },
        },
{
    let beneath = resolve & RESOLVE_BENEATH != 0;
    let in_root = resolve & RESOLVE_IN_ROOT != 0;
    if beneath && in_root {
        return Err(EINVAL);
    }
    if !beneath && !in_root {
        return Ok(BoundedPath { path: plain, base: None });
    }
    if beneath && starts_at_root(written) {
        return Err(EXDEV);
    }
    let base = match found {
        Some(base) => base,
        None => {
            return Err(EBADF);
        },
    };
    if beneath && leads_above(written) {
        return Err(EXDEV);
    }
    let start = NormPath::of(base.as_slice());
    let below = NormPath::of(written);
    let leads = NormPath { absolute: start.absolute, names: start.names.join(&below.names) };
    Ok(BoundedPath { path: leads.to_bytes(), base: Some(copy_bytes(base.as_slice())) })
}

/// A bounded path never leaves its directory: it lies at the directory or below.
pub proof fn law_bounded_paths_stay_below(written: Seq<u8>, base: Seq<u8>)
    ensures
        bounded_norm(written, base).absolute == path::normal(base).absolute,
        path::lies_under(bounded_norm(written, base).names, path::normal(base).names),
{
    let start = path::normal(base).names;
    let leads = bounded_norm(written, base).names;
    assert(leads.take(start.len() as int) =~= start);
}

/// A path that does not climb out of a directory leads to the same place bound
/// to the directory as it does when it is followed from there.
pub proof fn law_bounds_change_only_escaping_paths(written: Seq<u8>, base: Seq<u8>)
    requires
        !path::is_absolute(written),
        !escapes(path::parts(written)),
    ensures
        bounded_norm(written, base) == path::normal_from(base, written),
{
    lemma_no_root(path::pieces(written));
    lemma_follow_below(path::normal(base), path::parts(written));
}

proof fn lemma_no_root(written: Seq<Seq<u8>>)
    ensures
        forall|i: int| 0 <= i < path::parts_of(written).len() ==> !(#[trigger] path::parts_of(written)[i] is Root),
    decreases written.len(),
{
    if written.len() > 0 {
        lemma_no_root(written.drop_last());
    }
}

proof fn lemma_follow_below(from: path::Norm, way: Seq<Part>)
    requires
        !escapes(way),
        forall|i: int| 0 <= i < way.len() ==> !(#[trigger] way[i] is Root),
    ensures
        path::follow_all(from, way) == (path::Norm {
            absolute: from.absolute,
            names: from.names + path::follow_all(path::nowhere(), way).names,
        }),
    decreases way.len(),
{
    if way.len() == 0 {
        assert(from.names + path::nowhere().names =~= from.names);
    } else {
        let before = way.drop_last();
        assert forall|i: int| 0 <= i < before.len() implies !(#[trigger] before[i] is Root) by {
            assert(before[i] == way[i]);
        }
        lemma_follow_below(from, before);
        let below = path::follow_all(path::nowhere(), before).names;
        let last = way.last();
        assert(last == way[way.len() - 1]);
        if last is Parent {
            assert((from.names + below).drop_last() =~= from.names + below.drop_last());
        } else if last is Name {
            assert((from.names + below).push(last->Name_0) =~= from.names + below.push(last->Name_0));
        }
    }
}

/// The two layers of a branch.
pub struct Layers {
    pub workdir: Vec<u8>,
    pub upper: Vec<u8>,
}

/// The path under which a path of the upper layer is known: the same path below
/// the working directory. Any other path is only brought to normal form.
pub open spec fn logical_path(workdir: Seq<u8>, upper: Seq<u8>, written: Seq<u8>) -> Seq<u8> {
    let way = path::parts(written);
    let prefix = path::parts(upper);
    if path::starts_with(way, prefix) {
        path::rendered(path::follow_all(path::normal(workdir), way.skip(prefix.len() as int)))
    } else {
        path::rendered(path::normal(written))
    }
}

impl Layers {
    /// The path under which a path of the upper layer is known.
    pub fn map_upper_path(&self, written: &[u8]) -> (logical: Vec<u8>)
        ensures
            logical@ == logical_path(self.workdir@, self.upper@, written@),
    {
        let way = components(written);
        let prefix = components(self.upper.as_slice());
        if path::way_starts_with(&way, &prefix) {
            proof {
                path::lemma_parts_valid(written@);
            }
            NormPath::of(self.workdir.as_slice()).follow_from(&way, prefix.len()).to_bytes()
        } else {
            NormPath::of(written).to_bytes()
        }
    }

    /// The layer that a path lies in, the upper one first, and the rest of the
    /// path there.
    pub fn pick_root_rel(&self, actual: &[u8]) -> (result: Result<LayerPath, i32>)
        ensures
            match picked_layer(self.workdir@, self.upper@, actual@) {
                None => result == Err::<LayerPath, i32>(EACCES),
                Some((in_upper, rest)) => if vstd::utf8::valid_utf8(rest) {
                    result matches Ok(found) && found.in_upper == in_upper && found.rel@ == rest
                } else {
                    result == Err::<LayerPath, i32>(EINVAL)
                },
            },
    {
        let (in_upper, rel) = match path::strip_prefix(actual, self.upper.as_slice()) {
            Some(rel) => (true, rel),
            None => match path::strip_prefix(actual, self.workdir.as_slice()) {
                Some(rel) => (false, rel),
                None => {
                    return Err(EACCES);
                },
            },
        };
        if is_text(rel.as_slice()) {
            Ok(LayerPath { in_upper, rel })
        } else {
            Err(EINVAL)
        }
    }
}

/// A path inside one layer.
pub struct LayerPath {
    /// Whether the layer is the upper one, or else the working directory.
    pub in_upper: bool,
    pub rel: Vec<u8>,
}

/// The layer that a path lies in, and the rest of the path there.
pub open spec fn picked_layer(workdir: Seq<u8>, upper: Seq<u8>, actual: Seq<u8>) -> Option<(bool, Seq<u8>)> {
    let way = path::parts(actual);
    if path::starts_with(way, path::parts(upper)) {
        Some((true, path::way_bytes(way.skip(path::parts(upper).len() as int))))
    } else if path::starts_with(way, path::parts(workdir)) {
        Some((false, path::way_bytes(way.skip(path::parts(workdir).len() as int))))
    } else {
        None
    }
}

/// What was seen of the directory that a relative path is followed from.
#[derive(Clone, Copy, Debug)]
pub struct BaseFacts {
    /// The file mode of the directory, or the error of looking at it.
    pub mode: Result<u32, i32>,
    /// Whether its path is known.
    pub path_known: bool,
    /// Whether it lies in a layer of the branch.
    pub in_layer: bool,
    /// The mode that the branch keeps for it.
    pub logical_mode: Option<u32>,
}

/// The permissions of an inode: what the branch keeps, else its own.
pub open spec fn handle_mode(logical: Option<u32>, mode: u32) -> u32 {
    match logical {
        Some(kept) => kept,
        None => mode & 0o7777,
    }
}

/// Why a directory may not be searched.
pub open spec fn base_fault(written: Seq<u8>, has_branch: bool, pinned: Result<BaseFacts, i32>) -> Option<i32> {
    if path::is_absolute(written) || !has_branch {
        None
    } else {
        match pinned {
            Err(errno) => Some(errno),
            Ok(facts) => match facts.mode {
                Err(errno) => Some(errno),
                Ok(mode) => if mode & S_IFMT != S_IFDIR {
                    Some(ENOTDIR)
                } else if !facts.path_known {
                    Some(EBADF)
                } else if facts.in_layer && handle_mode(facts.logical_mode, mode) & OWNER_EXECUTE == 0 {
                    Some(EACCES)
                } else {
                    None
                },
            },
        }
    }
}

/// Checks that the directory that a relative path is followed from may be
/// searched.
pub fn check_relative_resolution_base(written: &[u8], has_branch: bool, pinned: Result<BaseFacts, i32>) -> (result:
    Result<(), i32>)
    ensures
        result == match base_fault(written@, has_branch, pinned) {
            Some(errno) => Err::<(), i32>(errno),
            None => Ok::<(), i32>(()),
        },
{
    if starts_at_root(written) || !has_branch {
        return Ok(());
    }
    let facts = match pinned {
        Ok(facts) => facts,
        Err(errno) => {
            return Err(errno);
        },
    };
    let mode = match facts.mode {
        Ok(mode) => mode,
        Err(errno) => {
            return Err(errno);
        },
    };
    if mode & S_IFMT != S_IFDIR {
        return Err(ENOTDIR);
    }
    if !facts.path_known {
        return Err(EBADF);
    }
    if !facts.in_layer {
        return Ok(());
    }
    let permissions = match facts.logical_mode {
        Some(kept) => kept,
        None => mode & 0o7777,
    };
    if permissions & OWNER_EXECUTE == 0 {
        Err(EACCES)
    } else {
        Ok(())
    }
}

pub const UMASK_KEY: &'static str = "Umask:";

/// The file creation mask that the status of a process tells.
pub open spec fn status_umask(status: Seq<u8>) -> Option<int> {
    match text::line_behind(status, UMASK_KEY.spec_bytes(), 0) {
        Some(rest) => match text::unsigned(text::trimmed(rest), 8) {
            Some(mask) if mask <= 0o777 => Some(mask),
            _ => None,
        },
        None => None,
    }
}

/// The file creation mask that the status of a process tells.
pub fn tracee_umask(status: &[u8]) -> (mask: Option<u32>)
    ensures
        match mask {
            Some(found) => status_umask(status@) == Some(found as int),
            None => status_umask(status@) is None,
        },
{
    match find_line(status, UMASK_KEY.as_bytes()) {
        Some(rest) => {
            let value = trim(rest.as_slice());
            match parse_unsigned(value.as_slice(), 8, 0o777) {
                Some(mask) => Some(mask as u32),
                None => None,
            }
        },
        None => None,
    }
}

/// The mode of a new entry: what is asked for without the mask. Where the mask
/// is not known no permission is given.
pub open spec fn masked_mode(mode: u32, umask: Option<u32>) -> u32 {
    (mode & 0o7777) & !(match umask {
        Some(mask) => mask,
        None => 0o777u32,
    } & 0o777)
}

/// The mode of a new entry.
pub fn apply_umask(mode: u32, umask: Option<u32>) -> (masked: u32)
    ensures
        masked == masked_mode(mode, umask),
{
    let mask: u32 = match umask {
        Some(mask) => mask,
        None => 0o777,
    };
    (mode & 0o7777) & !(mask & 0o777)
}

/// No new entry gets a permission that the mask denies, nor one that was not
/// asked for.
pub proof fn law_masks_only_take_away(mode: u32, umask: Option<u32>)
    ensures
        masked_mode(mode, umask) & !mode == 0,
        umask matches Some(mask) ==> masked_mode(mode, umask) & (mask & 0o777) == 0,
        umask is None ==> masked_mode(mode, umask) & 0o777 == 0,
{
    let mask: u32 = match umask {
        Some(mask) => mask,
        None => 0o777,
    };
    assert(((mode & 0o7777) & !(mask & 0o777)) & !mode == 0) by (bit_vector);
    assert(((mode & 0o7777) & !(mask & 0o777)) & (mask & 0o777) == 0) by (bit_vector);
    if umask is None {
        assert(((mode & 0o7777) & !(0o777u32 & 0o777)) & 0o777 == 0) by (bit_vector);
    }
}

proof fn lemma_first_piece(pieces: Seq<Seq<u8>>, piece: Seq<u8>, from: int)
    requires
        0 <= from <= pieces.len(),
    ensures
        ({
            let at = find_piece(pieces, piece, from);
            &&& from <= at <= pieces.len()
            &&& at < pieces.len() ==> pieces[at] == piece
            &&& forall|i: int| from <= i < at ==> #[trigger] pieces[i] != piece
        }),
    decreases pieces.len() - from,
{
    if from < pieces.len() && pieces[from] != piece {
        lemma_first_piece(pieces, piece, from + 1);
    }
}

/// A path below `proc` names a descriptor of some process exactly where the piece behind the
/// first `fd` is a number: the link is the path as far as that number, and the tail what
/// follows.
pub proof fn law_listed_descriptors_are_numbers(written: Seq<u8>)
    ensures
        ({
            let pieces = path::pieces(without_roots(written));
            match listed_fd(written) {
                Some(Magic::Listed { link, tail }) => exists|at: int|
                    #![trigger pieces.take(at + 2)]
                    0 <= at && at + 1 < pieces.len() && pieces[0] == "proc".spec_bytes() && pieces[at] == "fd".spec_bytes()
                        && (forall|i: int| 0 <= i < at ==> #[trigger] pieces[i] != "fd".spec_bytes()) && (text::signed(
                        pieces[at + 1],
                    ) matches Some(number) && i32::MIN <= number <= i32::MAX) && link == seq![0x2fu8] + path::joined(
                        pieces.take(at + 2),
                    ) && tail == path::joined(pieces.skip(at + 2)),
                Some(_) => false,
                None => forall|at: int|
                    0 <= at && at < pieces.len() - 1 && #[trigger] pieces[at] == "fd".spec_bytes() && (forall|i: int|
                        0 <= i < at ==> #[trigger] pieces[i] != "fd".spec_bytes()) ==> pieces[0] != "proc".spec_bytes()
                        || fd_number(pieces[at + 1]) is None,
            }
        }),
{
    let pieces = path::pieces(without_roots(written));
    let at = find_piece(pieces, FD_NAME.spec_bytes(), 0);
    lemma_first_piece(pieces, FD_NAME.spec_bytes(), 0);
    if listed_fd(written) is Some {
        assert(pieces.take(at + 2) == pieces.take(at + 2));
    } else {
        assert forall|k: int|
            0 <= k && k < pieces.len() - 1 && #[trigger] pieces[k] == "fd".spec_bytes() && (forall|i: int|
                0 <= i < k ==> #[trigger] pieces[i] != "fd".spec_bytes()) implies pieces[0] != "proc".spec_bytes()
            || fd_number(pieces[k + 1]) is None by {
            if at < k {
                assert(pieces[at] != "fd".spec_bytes());
            }
            assert(at == k);
        }
    }
}

proof fn lemma_digits_are_digits(value: int)
    requires
        value >= 0,
    ensures
        forall|i: int| 0 <= i < text::decimal_digits(value).len() ==> 0x30 <= #[trigger] text::decimal_digits(value)[i] <= 0x39,
    decreases value,
{
    let written = text::decimal_digits(value);
    if value >= 10 {
        lemma_digits_are_digits(value / 10);
        let before = text::decimal_digits(value / 10);
        let last = (0x30 + value % 10) as u8;
        assert(0x30 <= last <= 0x39);
        assert(written == before.push(last));
        assert forall|i: int| 0 <= i < written.len() implies 0x30 <= #[trigger] written[i] <= 0x39 by {
            if i < before.len() {
                assert(written[i] == before[i]);
            }
        }
    } else {
        let only = (0x30 + value) as u8;
        assert(0x30 <= only <= 0x39);
        assert(written == seq![only]);
    }
}

proof fn lemma_separator_is_found(bytes: Seq<u8>, from: int, at: int)
    requires
        0 <= from <= at <= bytes.len(),
        forall|i: int| from <= i < at ==> #[trigger] bytes[i] != 0x2f,
        at < bytes.len() ==> bytes[at] == 0x2f,
    ensures
        text::find_byte(bytes, 0x2f, from) == at,
    decreases at - from,
{
    if from < at {
        lemma_separator_is_found(bytes, from + 1, at);
    }
}

proof fn lemma_own_descriptor(fd: i32, tail: Seq<u8>)
    requires
        fd >= 0,
    ensures
        own_fd(text::decimal_digits(fd as int)) == Some(Magic::Own { fd: fd as int, tail: Seq::empty() }),
        own_fd(text::decimal_digits(fd as int).push(0x2f) + tail) == Some(Magic::Own { fd: fd as int, tail }),
{
    let digits = text::decimal_digits(fd as int);
    let n = digits.len() as int;
    lemma_digits_are_digits(fd as int);
    text::law_signed_reads_back(fd as int);
    assert forall|i: int| 0 <= i < n implies #[trigger] digits[i] != 0x2f by {}
    lemma_separator_is_found(digits, 0, n);
    assert(digits.take(n) =~= digits);
    let whole = digits.push(0x2f) + tail;
    assert forall|i: int| 0 <= i < n implies #[trigger] whole[i] != 0x2f by {
        assert(whole[i] == digits[i]);
    }
    assert(whole[n] == 0x2f);
    lemma_separator_is_found(whole, 0, n);
    assert(whole.take(n) =~= digits);
    assert(whole.skip(n + 1) =~= tail);
}

/// The descriptors of a task have names of their own: the number behind one of three
/// directories, and the three standard streams; what follows the number is followed from
/// there.
pub proof fn law_own_descriptors_have_names(fd: i32, tail: Seq<u8>)
    requires
        fd >= 0,
    ensures
        ({
            let digits = text::decimal_digits(fd as int);
            let own = Some(Magic::Own { fd: fd as int, tail: Seq::empty() });
            let below = Some(Magic::Own { fd: fd as int, tail });
            &&& magic_of("/dev/fd/".spec_bytes() + digits) == own
            &&& magic_of("/dev/fd/".spec_bytes() + (digits.push(0x2f) + tail)) == below
            &&& magic_of("/proc/self/fd/".spec_bytes() + digits) == own
            &&& magic_of("/proc/self/fd/".spec_bytes() + (digits.push(0x2f) + tail)) == below
            &&& magic_of("/proc/thread-self/fd/".spec_bytes() + digits) == own
            &&& magic_of("/proc/thread-self/fd/".spec_bytes() + (digits.push(0x2f) + tail)) == below
            &&& magic_of("/dev/stdin".spec_bytes()) == Some(Magic::Own { fd: 0, tail: Seq::empty() })
            &&& magic_of("/dev/stdout".spec_bytes()) == Some(Magic::Own { fd: 1, tail: Seq::empty() })
            &&& magic_of("/dev/stderr".spec_bytes()) == Some(Magic::Own { fd: 2, tail: Seq::empty() })
        }),
{
    let digits = text::decimal_digits(fd as int);
    let more = digits.push(0x2f) + tail;
    lemma_own_descriptor(fd, tail);
    lemma_magic_prefixes(digits);
    lemma_magic_prefixes(more);
}

proof fn lemma_magic_prefixes(rest: Seq<u8>)
    ensures
        magic_of("/dev/fd/".spec_bytes() + rest) == own_fd(rest),
        magic_of("/proc/self/fd/".spec_bytes() + rest) == own_fd(rest),
        magic_of("/proc/thread-self/fd/".spec_bytes() + rest) == own_fd(rest),
        magic_of("/dev/stdin".spec_bytes()) == Some(Magic::Own { fd: 0, tail: Seq::empty() }),
        magic_of("/dev/stdout".spec_bytes()) == Some(Magic::Own { fd: 1, tail: Seq::empty() }),
        magic_of("/dev/stderr".spec_bytes()) == Some(Magic::Own { fd: 2, tail: Seq::empty() }),
{
    reveal_strlit("/dev/fd/");
    reveal_strlit("/dev/stdin");
    reveal_strlit("/dev/stdout");
    reveal_strlit("/dev/stderr");
    reveal_strlit("/proc/self/fd/");
    reveal_strlit("/proc/thread-self/fd/");
    vstd::utf8::is_ascii_chars_encode_utf8("/dev/fd/"@);
    vstd::utf8::is_ascii_chars_encode_utf8("/dev/stdin"@);
    vstd::utf8::is_ascii_chars_encode_utf8("/dev/stdout"@);
    vstd::utf8::is_ascii_chars_encode_utf8("/dev/stderr"@);
    vstd::utf8::is_ascii_chars_encode_utf8("/proc/self/fd/"@);
    vstd::utf8::is_ascii_chars_encode_utf8("/proc/thread-self/fd/"@);
    let dev = "/dev/fd/".spec_bytes();
    let own = "/proc/self/fd/".spec_bytes();
    let thread = "/proc/thread-self/fd/".spec_bytes();
    let stdin = "/dev/stdin".spec_bytes();
    let stdout = "/dev/stdout".spec_bytes();
    let stderr = "/dev/stderr".spec_bytes();
    assert(dev.len() == 8 && dev[1] == 'd' as u8 && dev[5] == 'f' as u8);
    assert(own.len() == 14 && own[1] == 'p' as u8 && own[6] == 's' as u8);
    assert(thread.len() == 21 && thread[1] == 'p' as u8 && thread[6] == 't' as u8);
    assert(stdin.len() == 10 && stdin[1] == 'd' as u8 && stdin[5] == 's' as u8);
    assert(stdout.len() == 11 && stdout[1] == 'd' as u8 && stdout[5] == 's' as u8 && stdout[8] == 'o' as u8);
    assert(stderr.len() == 11 && stderr[1] == 'd' as u8 && stderr[5] == 's' as u8 && stderr[8] == 'e' as u8);
    assert((dev + rest).take(8) =~= dev);
    assert((dev + rest).skip(8) =~= rest);
    assert((own + rest).take(14) =~= own);
    assert((own + rest).skip(14) =~= rest);
    assert((thread + rest).take(21) =~= thread);
    assert((thread + rest).skip(21) =~= rest);
    assert((own + rest)[1] == 'p' as u8);
    assert((thread + rest)[1] == 'p' as u8);
    assert((thread + rest)[6] == 't' as u8);
    assert((own + rest).take(8)[1] != dev[1]);
    assert((thread + rest).take(8)[1] != dev[1]);
    assert((thread + rest).take(14)[6] != own[6]);
    assert(stdin.take(8)[5] != dev[5]);
    assert(stdout.take(8)[5] != dev[5]);
    assert(stderr.take(8)[5] != dev[5]);
}

/// Where a path leads: an absolute one that names no descriptor to its normal form, wherever
/// the task is; a relative one on from the directory that it starts in.
pub proof fn law_paths_lead_on_from_their_base(written: Seq<u8>, base: Seq<u8>, found: Option<Seq<u8>>)
    ensures
        path::is_absolute(written) && magic_of(written) is None ==> resolved(written, found) == path::rendered(
            path::follow_all(path::nowhere(), path::parts(written)),
        ),
        path::is_absolute(written) && found is None ==> resolved(written, None) == path::rendered(path::normal(written)),
        !path::is_absolute(written) ==> resolved(written, Some(base)) == path::rendered(
            path::follow_all(path::normal(base), path::parts(written)),
        ),
        !path::is_absolute(written) ==> resolved(written, None) == written,
        path::is_absolute(written) ==> (magic_of(written) matches Some(Magic::Own { fd, tail }) ==> resolved(
            written,
            Some(base),
        ) == path::rendered(path::follow_all(path::normal(base), path::parts(tail)))),
        path::is_absolute(written) ==> (magic_of(written) matches Some(Magic::Listed { link, tail }) ==> resolved(
            written,
            Some(base),
        ) == path::rendered(path::follow_all(path::normal(base), path::parts(tail)))),
{
}

/// A path leads above where it starts exactly where some step up is taken at the top.
pub proof fn law_steps_up_at_the_top_escape(way: Seq<Part>)
    ensures
        escapes(way) <==> exists|k: int|
            0 <= k < way.len() && (#[trigger] way[k]) is Parent && path::follow_all(path::nowhere(), way.take(k)).names.len()
                == 0,
    decreases way.len(),
{
    if way.len() > 0 {
        let rest = way.drop_last();
        let last = way.len() - 1;
        law_steps_up_at_the_top_escape(rest);
        assert(way.take(last) =~= rest);
        assert(way[last] == way.last());
        if escapes(rest) {
            let k = choose|k: int|
                0 <= k < rest.len() && (#[trigger] rest[k]) is Parent && path::follow_all(
                    path::nowhere(),
                    rest.take(k),
                ).names.len() == 0;
            assert(rest.take(k) =~= way.take(k));
            assert(way[k] is Parent);
        }
        if exists|k: int|
            0 <= k < way.len() && (#[trigger] way[k]) is Parent && path::follow_all(path::nowhere(), way.take(k)).names.len()
                == 0 {
            let k = choose|k: int|
                0 <= k < way.len() && (#[trigger] way[k]) is Parent && path::follow_all(
                    path::nowhere(),
                    way.take(k),
                ).names.len() == 0;
            if k < last {
                assert(rest.take(k) =~= way.take(k));
                assert(rest[k] is Parent);
            }
        }
    }
}

/// A bounded path is refused exactly where both bounds are asked for, where its base is
/// unknown, and, below its base, where it is absolute or leads above it.
pub proof fn law_bounded_paths_are_refused_for_a_reason(written: Seq<u8>, resolve: u64, base: Seq<u8>, found: Option<Seq<u8>>)
    ensures
        ({
            let beneath = resolve & 0x08 != 0;
            let in_root = resolve & 0x10 != 0;
            let fault = bounded_fault(written, resolve, found);
            &&& beneath && in_root ==> fault == Some(22i32)
            &&& !beneath && !in_root ==> fault is None
            &&& beneath && !in_root && path::is_absolute(written) ==> fault == Some(18i32)
            &&& beneath != in_root && !(beneath && path::is_absolute(written)) && found is None ==> fault == Some(9i32)
            &&& beneath && !in_root && !path::is_absolute(written) ==> bounded_fault(written, resolve, Some(base))
                == if escapes(path::parts(written)) {
                Some(18i32)
            } else {
                None
            }
            &&& in_root && !beneath ==> bounded_fault(written, resolve, Some(base)) is None
        }),
{
}

/// What lies in the upper layer is told as lying in the directory that the branch stands
/// for; everything else in its normal form.
pub proof fn law_upper_places_are_told_as_logical(workdir: Seq<u8>, upper: Seq<u8>, written: Seq<u8>, rest: Seq<Part>)
    ensures
        path::parts(written) == path::parts(upper) + rest ==> logical_path(workdir, upper, written) == path::rendered(
            path::follow_all(path::normal(workdir), rest),
        ),
        !path::starts_with(path::parts(written), path::parts(upper)) ==> logical_path(workdir, upper, written)
            == path::rendered(path::normal(written)),
{
    let way = path::parts(upper) + rest;
    assert(way.take(path::parts(upper).len() as int) =~= path::parts(upper));
    assert(way.skip(path::parts(upper).len() as int) =~= rest);
}

/// A place lies in the upper layer where its way goes through it, otherwise in the lower one
/// where its way goes through that, and otherwise in neither; what is told is the way that
/// is left.
pub proof fn law_layers_are_picked_by_the_way(workdir: Seq<u8>, upper: Seq<u8>, actual: Seq<u8>, rest: Seq<Part>)
    ensures
        path::parts(actual) == path::parts(upper) + rest ==> picked_layer(workdir, upper, actual) == Some(
            (true, path::way_bytes(rest)),
        ),
        path::parts(actual) == path::parts(workdir) + rest && !path::starts_with(path::parts(actual), path::parts(upper))
            ==> picked_layer(workdir, upper, actual) == Some((false, path::way_bytes(rest))),
        !path::starts_with(path::parts(actual), path::parts(upper)) && !path::starts_with(
            path::parts(actual),
            path::parts(workdir),
        ) ==> picked_layer(workdir, upper, actual) is None,
{
    let above = path::parts(upper) + rest;
    assert(above.take(path::parts(upper).len() as int) =~= path::parts(upper));
    assert(above.skip(path::parts(upper).len() as int) =~= rest);
    let below = path::parts(workdir) + rest;
    assert(below.take(path::parts(workdir).len() as int) =~= path::parts(workdir));
    assert(below.skip(path::parts(workdir).len() as int) =~= rest);
}

/// A relative path of a branch starts from a directory that is known and, in a layer of the
/// branch, may be searched by its owner under the mode that the branch keeps for it. Absolute
/// paths, and tasks without a branch, are not held to that.
pub proof fn law_bases_are_searchable_directories(written: Seq<u8>, facts: BaseFacts, mode: u32, errno: i32, has_branch: bool)
    ensures
        path::is_absolute(written) || !has_branch ==> base_fault(written, has_branch, Ok(facts)) is None && base_fault(
            written,
            has_branch,
            Err(errno),
        ) is None,
        !path::is_absolute(written) ==> {
            let fault = |facts: BaseFacts| base_fault(written, true, Ok(facts));
            let read = BaseFacts { mode: Ok(mode), ..facts };
            let shown = match facts.logical_mode {
                Some(kept) => kept,
                None => mode & 0o7777,
            };
            &&& base_fault(written, true, Err(errno)) == Some(errno)
            &&& fault(BaseFacts { mode: Err(errno), ..facts }) == Some(errno)
            &&& mode & 0o170000 != 0o040000 ==> fault(read) == Some(20i32)
            &&& mode & 0o170000 == 0o040000 && !facts.path_known ==> fault(read) == Some(9i32)
            &&& mode & 0o170000 == 0o040000 && facts.path_known && facts.in_layer && shown & 0o100 == 0 ==> fault(read)
                == Some(13i32)
            &&& fault(read) is None <==> mode & 0o170000 == 0o040000 && facts.path_known && (facts.in_layer ==> shown & 0o100
                != 0)
        },
{
}

/// The mask of a task is the octal number in its line of the status, where it is one of
/// permission bits alone.
pub proof fn law_masks_are_read_from_their_line(rest: Seq<u8>, more: Seq<u8>)
    requires
        !rest.contains(0x0a),
    ensures
        ({
            let status = ("Umask:".spec_bytes() + rest).push(0x0a) + more;
            status_umask(status) == match text::unsigned(text::trimmed(rest), 8) {
                Some(mask) => if mask <= 0o777 {
                    Some(mask)
                } else {
                    None
                },
                None => None,
            }
        }),
        status_umask(Seq::empty()) is None,
{
    reveal_strlit("Umask:");
    vstd::utf8::is_ascii_chars_encode_utf8("Umask:"@);
    let key = "Umask:".spec_bytes();
    assert(key.len() == 6);
    assert(key[0] == 'U' as u8 && key[1] == 'm' as u8 && key[2] == 'a' as u8 && key[3] == 's' as u8 && key[4] == 'k' as u8
        && key[5] == ':' as u8);
    assert(!key.contains(0x0a));
    text::law_first_line_with_a_prefix_is_found(key, rest, Seq::empty(), more);
}

/// The mask of a task takes its permission bits off a mode, and nothing else but what is no
/// mode; without a mask all permission bits go.
pub proof fn law_masked_modes_keep_the_rest(mode: u32, mask: u32)
    ensures
        masked_mode(mode, Some(mask)) == (mode & 0o7777) & !(mask & 0o777),
        masked_mode(mode, Some(0)) == mode & 0o7777,
        masked_mode(mode, None) == masked_mode(mode, Some(0o777)),
{
    assert((mode & 0o7777) & !(0u32 & 0o777) == mode & 0o7777) by (bit_vector);
}

} // verus!
