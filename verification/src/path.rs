//! Unix paths as byte strings and as sequences of component names.
//!
//! A path is a byte string whose pieces are separated by `/`. A relative path
//! in normal form is the sequence of its names: no piece is empty, `.` or `..`.
//! Names compare bytewise, paths compare name by name.

use vstd::prelude::*;
use vstd::slice::slice_to_vec;

verus! {

/// The byte that separates the pieces of a path.
pub const SEPARATOR: u8 = 0x2f;

/// The byte `.`.
pub const DOT: u8 = 0x2e;

/// The sequence of names that a normal relative path stands for.
pub type Names = Seq<Seq<u8>>;

/// The piece `.`.
pub open spec fn dot() -> Seq<u8> {
    seq![DOT]
}

/// The piece `..`.
pub open spec fn dot_dot() -> Seq<u8> {
    seq![DOT, DOT]
}

/// The pieces of a path, as its separators part them.
pub open spec fn pieces(path: Seq<u8>) -> Seq<Seq<u8>>
    decreases path.len(),
{
    if path.len() == 0 {
        seq![Seq::empty()]
    } else {
        let before = pieces(path.drop_last());
        if path.last() == SEPARATOR {
            before.push(Seq::empty())
        } else {
            before.drop_last().push(before.last().push(path.last()))
        }
    }
}

/// A piece that names an entry of its own.
pub open spec fn is_name(piece: Seq<u8>) -> bool {
    piece.len() > 0 && piece != dot() && piece != dot_dot()
}

/// A name as a normal path holds it: it names an entry and holds no separator.
pub open spec fn valid_name(name: Seq<u8>) -> bool {
    is_name(name) && !name.contains(SEPARATOR)
}

/// Every name of a normal path is a valid name.
pub open spec fn valid_names(names: Names) -> bool {
    forall|i: int| 0 <= i < names.len() ==> valid_name(#[trigger] names[i])
}

/// Whether a path starts at the root.
pub open spec fn is_absolute(path: Seq<u8>) -> bool {
    path.len() > 0 && path[0] == SEPARATOR
}

/// The names among some pieces, in order.
pub open spec fn named(parts: Seq<Seq<u8>>) -> Names
    decreases parts.len(),
{
    if parts.len() == 0 {
        Seq::empty()
    } else if is_name(parts.last()) {
        named(parts.drop_last()).push(parts.last())
    } else {
        named(parts.drop_last())
    }
}

/// The names of a relative path without `..`; nothing for any other path.
pub open spec fn relative_names(path: Seq<u8>) -> Option<Names> {
    if is_absolute(path) || pieces(path).contains(dot_dot()) {
        None
    } else {
        Some(named(pieces(path)))
    }
}

/// The byte string of a normal relative path.
pub open spec fn joined(names: Names) -> Seq<u8>
    decreases names.len(),
{
    if names.len() == 0 {
        Seq::empty()
    } else if names.len() == 1 {
        names[0]
    } else {
        joined(names.drop_last()).push(SEPARATOR) + names.last()
    }
}

/// Bytewise order, a proper prefix first.
pub open spec fn bytes_before(a: Seq<u8>, b: Seq<u8>) -> bool
    decreases a.len(),
{
    if b.len() == 0 {
        false
    } else if a.len() == 0 {
        true
    } else if a[0] != b[0] {
        a[0] < b[0]
    } else {
        bytes_before(a.drop_first(), b.drop_first())
    }
}

/// The order of paths: name by name, an ancestor before what lies below it.
pub open spec fn path_before(a: Names, b: Names) -> bool
    decreases a.len(),
{
    if b.len() == 0 {
        false
    } else if a.len() == 0 {
        true
    } else if a[0] != b[0] {
        bytes_before(a[0], b[0])
    } else {
        path_before(a.drop_first(), b.drop_first())
    }
}

/// Whether `path` is `root` or lies below it.
pub open spec fn lies_under(path: Names, root: Names) -> bool {
    root.len() <= path.len() && path.take(root.len() as int) == root
}

pub proof fn lemma_bytes_irreflexive(a: Seq<u8>)
    ensures
        !bytes_before(a, a),
    decreases a.len(),
{
    if a.len() > 0 {
        lemma_bytes_irreflexive(a.drop_first());
    }
}

pub proof fn lemma_bytes_transitive(a: Seq<u8>, b: Seq<u8>, c: Seq<u8>)
    requires
        bytes_before(a, b),
        bytes_before(b, c),
    ensures
        bytes_before(a, c),
    decreases a.len(),
{
    if a.len() > 0 && b.len() > 0 && c.len() > 0 && a[0] == b[0] && b[0] == c[0] {
        lemma_bytes_transitive(a.drop_first(), b.drop_first(), c.drop_first());
    }
}

pub proof fn lemma_bytes_total(a: Seq<u8>, b: Seq<u8>)
    ensures
        a == b || bytes_before(a, b) || bytes_before(b, a),
    decreases a.len(),
{
    if a.len() > 0 && b.len() > 0 && a[0] == b[0] {
        lemma_bytes_total(a.drop_first(), b.drop_first());
        if a.drop_first() == b.drop_first() {
            assert(a =~= seq![a[0]] + a.drop_first());
            assert(b =~= seq![b[0]] + b.drop_first());
        }
    } else if a.len() == 0 && b.len() == 0 {
        assert(a =~= b);
    }
}

/// No path comes before itself.
pub proof fn lemma_path_irreflexive(a: Names)
    ensures
        !path_before(a, a),
    decreases a.len(),
{
    if a.len() > 0 {
        lemma_path_irreflexive(a.drop_first());
    }
}

/// The order of paths is transitive.
pub proof fn lemma_path_transitive(a: Names, b: Names, c: Names)
    requires
        path_before(a, b),
        path_before(b, c),
    ensures
        path_before(a, c),
    decreases a.len(),
{
    if a.len() > 0 && b.len() > 0 && c.len() > 0 {
        if a[0] == b[0] && b[0] == c[0] {
            lemma_path_transitive(a.drop_first(), b.drop_first(), c.drop_first());
        } else if a[0] != b[0] && b[0] != c[0] {
            lemma_bytes_transitive(a[0], b[0], c[0]);
            lemma_bytes_irreflexive(a[0]);
        }
    }
}

/// Of two different paths one comes before the other.
pub proof fn lemma_path_total(a: Names, b: Names)
    ensures
        a == b || path_before(a, b) || path_before(b, a),
    decreases a.len(),
{
    if a.len() > 0 && b.len() > 0 {
        if a[0] == b[0] {
            lemma_path_total(a.drop_first(), b.drop_first());
            if a.drop_first() == b.drop_first() {
                assert(a =~= seq![a[0]] + a.drop_first());
                assert(b =~= seq![b[0]] + b.drop_first());
            }
        } else {
            lemma_bytes_total(a[0], b[0]);
        }
    } else if a.len() == 0 && b.len() == 0 {
        assert(a =~= b);
    }
}

/// An ancestor comes before what lies below it.
pub proof fn lemma_ancestor_before(root: Names, path: Names)
    requires
        lies_under(path, root),
        path != root,
    ensures
        path_before(root, path),
    decreases root.len(),
{
    if root.len() == 0 {
        if path.len() == 0 {
            assert(path =~= root);
        }
    } else {
        assert(path[0] == path.take(root.len() as int)[0]);
        assert(path.drop_first().take(root.len() - 1) =~= path.take(root.len() as int).drop_first());
        if path.drop_first() == root.drop_first() {
            assert(path =~= seq![path[0]] + path.drop_first());
            assert(root =~= seq![root[0]] + root.drop_first());
        }
        lemma_ancestor_before(root.drop_first(), path.drop_first());
    }
}

/// No piece holds a separator.
pub proof fn lemma_pieces_hold_no_separator(path: Seq<u8>)
    ensures
        pieces(path).len() > 0,
        forall|i: int| 0 <= i < pieces(path).len() ==> !(#[trigger] pieces(path)[i]).contains(SEPARATOR),
    decreases path.len(),
{
    if path.len() > 0 {
        lemma_pieces_hold_no_separator(path.drop_last());
        let before = pieces(path.drop_last());
        assert forall|i: int| 0 <= i < pieces(path).len() implies !(#[trigger] pieces(path)[i]).contains(
            SEPARATOR,
        ) by {
            if path.last() != SEPARATOR && i == pieces(path).len() - 1 {
                let piece = before.last().push(path.last());
                assert(!before[before.len() - 1].contains(SEPARATOR));
                assert forall|j: int| 0 <= j < piece.len() implies piece[j] != SEPARATOR by {
                    if j < before.last().len() {
                        assert(before.last()[j] == piece[j]);
                    }
                }
            } else if i < before.len() {
                assert(pieces(path)[i] == before[i]);
            }
        }
    }
}

/// The names among pieces that hold no separator, and no `..`, are valid.
proof fn lemma_named_valid(parts: Seq<Seq<u8>>)
    requires
        forall|i: int| 0 <= i < parts.len() ==> !(#[trigger] parts[i]).contains(SEPARATOR),
    ensures
        valid_names(named(parts)),
    decreases parts.len(),
{
    if parts.len() > 0 {
        let rest = parts.drop_last();
        assert forall|i: int| 0 <= i < rest.len() implies !(#[trigger] rest[i]).contains(SEPARATOR) by {
            assert(rest[i] == parts[i]);
        }
        lemma_named_valid(rest);
    }
}

/// The names of every relative path are valid.
pub proof fn lemma_relative_names_valid(path: Seq<u8>)
    ensures
        relative_names(path) matches Some(names) ==> valid_names(names),
{
    lemma_pieces_hold_no_separator(path);
    lemma_named_valid(pieces(path));
}

/// Appending bytes without a separator extends the last piece.
proof fn lemma_pieces_extend(path: Seq<u8>, name: Seq<u8>)
    requires
        !name.contains(SEPARATOR),
    ensures
        pieces(path).len() > 0,
        pieces(path + name) == pieces(path).drop_last().push(pieces(path).last() + name),
    decreases name.len(),
{
    lemma_pieces_hold_no_separator(path);
    if name.len() == 0 {
        assert(path + name =~= path);
        assert(pieces(path).last() + name =~= pieces(path).last());
        assert(pieces(path).drop_last().push(pieces(path).last()) =~= pieces(path));
    } else {
        let shorter = name.drop_last();
        assert forall|i: int| 0 <= i < shorter.len() implies shorter[i] != SEPARATOR by {
            assert(shorter[i] == name[i]);
            assert(name.contains(name[i]));
        }
        assert(!shorter.contains(SEPARATOR));
        lemma_pieces_extend(path, shorter);
        assert(name.contains(name[name.len() - 1]));
        assert((path + name).drop_last() =~= path + shorter);
        let before = pieces(path + shorter);
        assert(before.drop_last() =~= pieces(path).drop_last());
        assert(before.last() == pieces(path).last() + shorter);
        assert(before.last().push(name.last()) =~= pieces(path).last() + name);
    }
}

/// The pieces of a normal path's byte string are its names.
pub proof fn lemma_pieces_of_joined(names: Names)
    requires
        valid_names(names),
        names.len() > 0,
    ensures
        pieces(joined(names)) == names,
        joined(names).len() > 0,
        joined(names)[0] != SEPARATOR,
    decreases names.len(),
{
    assert(valid_name(names[names.len() - 1]));
    if names.len() == 1 {
        lemma_pieces_extend(Seq::empty(), names[0]);
        assert(Seq::<u8>::empty() + names[0] =~= names[0]);
        assert(pieces(names[0]) =~= names);
        assert(names[0].contains(names[0][0]));
    } else {
        let shorter = names.drop_last();
        assert(valid_names(shorter)) by {
            assert forall|i: int| 0 <= i < shorter.len() implies valid_name(#[trigger] shorter[i]) by {
                assert(shorter[i] == names[i]);
            }
        }
        lemma_pieces_of_joined(shorter);
        let stem = joined(shorter).push(SEPARATOR);
        assert(stem.drop_last() =~= joined(shorter));
        assert(pieces(stem) == shorter.push(Seq::empty()));
        lemma_pieces_extend(stem, names.last());
        assert(Seq::<u8>::empty() + names.last() =~= names.last());
        assert(pieces(stem).drop_last() =~= shorter);
        assert(shorter.push(names.last()) =~= names);
    }
}

proof fn lemma_named_of_valid(names: Names)
    requires
        valid_names(names),
    ensures
        named(names) == names,
    decreases names.len(),
{
    if names.len() > 0 {
        let shorter = names.drop_last();
        assert forall|i: int| 0 <= i < shorter.len() implies valid_name(#[trigger] shorter[i]) by {
            assert(shorter[i] == names[i]);
        }
        lemma_named_of_valid(shorter);
        assert(valid_name(names[names.len() - 1]));
        assert(shorter.push(names.last()) =~= names);
    } else {
        assert(named(names) =~= names);
    }
}

/// Reading back the byte string of a normal path gives the same names.
pub proof fn law_joined_reads_back(names: Names)
    requires
        valid_names(names),
    ensures
        relative_names(joined(names)) == Some(names),
{
    if names.len() == 0 {
        assert(joined(names) =~= Seq::<u8>::empty());
        let parts = pieces(joined(names));
        assert(parts =~= seq![Seq::<u8>::empty()]);
        assert(parts.drop_last() =~= Seq::<Seq<u8>>::empty());
        assert(named(parts) == named(parts.drop_last()));
        assert(named(parts) =~= names);
        assert(!parts.contains(dot_dot())) by {
            assert forall|i: int| 0 <= i < parts.len() implies parts[i] != dot_dot() by {
                assert(parts[i].len() == 0);
            }
        }
    } else {
        lemma_pieces_of_joined(names);
        lemma_named_of_valid(names);
        assert(!names.contains(dot_dot())) by {
            assert forall|i: int| 0 <= i < names.len() implies names[i] != dot_dot() by {
                assert(valid_name(names[i]));
            }
        }
    }
}

/// Normalizing the byte string of a normalized path changes nothing.
pub proof fn law_normalization_is_idempotent(path: Seq<u8>)
    requires
        relative_names(path) is Some,
    ensures
        relative_names(joined(relative_names(path)->0)) == relative_names(path),
{
    lemma_relative_names_valid(path);
    law_joined_reads_back(relative_names(path)->0);
}

/// The pieces of a byte string.
pub fn split_pieces(path: &[u8]) -> (result: Vec<Vec<u8>>)
    ensures
        byte_views(result@) == pieces(path@),
{
    let mut result: Vec<Vec<u8>> = Vec::new();
    let mut piece: Vec<u8> = Vec::new();
    let mut i: usize = 0;
    while i < path.len()
        invariant
            i <= path@.len(),
            byte_views(result@).push(piece@) == pieces(path@.take(i as int)),
        decreases path@.len() - i,
    {
        let ghost prefix = path@.take(i as int + 1);
        proof {
            assert(prefix.drop_last() =~= path@.take(i as int));
        }
        let byte: u8 = path[i];
        if byte == SEPARATOR {
            let ghost before = byte_views(result@);
            let ghost whole = piece@;
            result.push(piece);
            piece = Vec::new();
            proof {
                assert(byte_views(result@) =~= before.push(whole));
            }
        } else {
            let ghost whole = piece@;
            piece.push(byte);
            proof {
                assert(byte_views(result@).push(whole).drop_last() =~= byte_views(result@));
            }
        }
        i = i + 1;
    }
    proof {
        assert(path@.take(i as int) =~= path@);
    }
    let ghost before = byte_views(result@);
    let ghost whole = piece@;
    result.push(piece);
    proof {
        assert(byte_views(result@) =~= before.push(whole));
    }
    result
}

/// The contents of some byte strings.
pub open spec fn byte_views(strings: Seq<Vec<u8>>) -> Seq<Seq<u8>> {
    Seq::new(strings.len(), |i: int| strings[i]@)
}

/// Whether two byte strings hold the same bytes.
pub fn bytes_equal(a: &[u8], b: &[u8]) -> (equal: bool)
    ensures
        equal == (a@ == b@),
{
    if a.len() != b.len() {
        return false;
    }
    let mut i: usize = 0;
    while i < a.len()
        invariant
            a@.len() == b@.len(),
            i <= a@.len(),
            a@.take(i as int) == b@.take(i as int),
        decreases a@.len() - i,
    {
        if a[i] != b[i] {
            return false;
        }
        proof {
            assert(a@.take(i as int + 1) =~= a@.take(i as int).push(a@[i as int]));
            assert(b@.take(i as int + 1) =~= b@.take(i as int).push(b@[i as int]));
        }
        i = i + 1;
    }
    proof {
        assert(a@.take(i as int) =~= a@);
        assert(b@.take(i as int) =~= b@);
    }
    true
}

/// Whether the first byte string comes before the second.
pub fn bytes_precede(a: &[u8], b: &[u8]) -> (before: bool)
    ensures
        before == bytes_before(a@, b@),
{
    let mut i: usize = 0;
    proof {
        assert(a@.skip(0) =~= a@);
        assert(b@.skip(0) =~= b@);
    }
    while i < a.len() && i < b.len()
        invariant
            i <= a@.len(),
            i <= b@.len(),
            bytes_before(a@, b@) == bytes_before(a@.skip(i as int), b@.skip(i as int)),
        decreases a@.len() - i,
    {
        if a[i] != b[i] {
            return a[i] < b[i];
        }
        proof {
            assert(a@.skip(i as int).drop_first() =~= a@.skip(i as int + 1));
            assert(b@.skip(i as int).drop_first() =~= b@.skip(i as int + 1));
        }
        i = i + 1;
    }
    i < b.len()
}

/// A byte string with the same bytes.
pub fn copy_bytes(bytes: &[u8]) -> (copy: Vec<u8>)
    ensures
        copy@ == bytes@,
{
    slice_to_vec(bytes)
}

/// Whether a byte stands in a string.
pub fn holds_byte(bytes: &[u8], byte: u8) -> (result: bool)
    ensures
        result == bytes@.contains(byte),
{
    let mut i: usize = 0;
    while i < bytes.len()
        invariant
            i <= bytes@.len(),
            forall|j: int| 0 <= j < i ==> bytes@[j] != byte,
        decreases bytes@.len() - i,
    {
        if bytes[i] == byte {
            return true;
        }
        i = i + 1;
    }
    false
}

/// Appends bytes at the end of a byte string.
pub fn append_bytes(target: &mut Vec<u8>, bytes: &[u8])
    ensures
        final(target)@ == old(target)@ + bytes@,
{
    target.extend_from_slice(bytes);
    proof {
        assert(target@ =~= old(target)@ + bytes@);
    }
}

/// Whether bytes are the piece `.`.
fn is_dot(piece: &[u8]) -> (result: bool)
    ensures
        result == (piece@ == dot()),
{
    let result = piece.len() == 1 && piece[0] == DOT;
    proof {
        if result {
            assert(piece@ =~= dot());
        }
    }
    result
}

/// Whether bytes are the piece `..`.
fn is_dot_dot(piece: &[u8]) -> (result: bool)
    ensures
        result == (piece@ == dot_dot()),
{
    let result = piece.len() == 2 && piece[0] == DOT && piece[1] == DOT;
    proof {
        if result {
            assert(piece@ =~= dot_dot());
        }
    }
    result
}

/// Whether the path starts at the root.
pub fn starts_at_root(path: &[u8]) -> (result: bool)
    ensures
        result == is_absolute(path@),
{
    path.len() > 0 && path[0] == SEPARATOR
}

/// Whether the first piece of a path is `.`.
pub fn leads_with_dot(path: &[u8]) -> (result: bool)
    ensures
        result == (pieces(path@)[0] == dot()),
{
    let parts = split_pieces(path);
    proof {
        lemma_pieces_hold_no_separator(path@);
        assert(byte_views(parts@).len() > 0);
        assert(byte_views(parts@)[0] == parts@[0]@);
    }
    is_dot(parts[0].as_slice())
}

/// A relative path in normal form.
#[derive(Debug)]
pub struct RelPath {
    names: Vec<Vec<u8>>,
}

impl View for RelPath {
    type V = Names;

    closed spec fn view(&self) -> Names {
        byte_views(self.names@)
    }
}

impl RelPath {
    #[verifier::type_invariant]
    spec fn names_are_valid(self) -> bool {
        valid_names(byte_views(self.names@))
    }

    /// The path with no names: the root that relative paths start from.
    pub fn root() -> (path: RelPath)
        ensures
            path@ == Names::empty(),
    {
        let path = RelPath { names: Vec::new() };
        proof {
            assert(path@ =~= Names::empty());
        }
        path
    }

    /// Reads a byte string as a relative path: `.` and empty pieces are left
    /// out, a leading separator or a `..` makes it no relative path.
    pub fn parse(path: &[u8]) -> (result: Option<RelPath>)
        ensures
            match result {
                Some(parsed) => relative_names(path@) == Some(parsed@),
                None => relative_names(path@) is None,
            },
    {
        proof {
            lemma_pieces_hold_no_separator(path@);
        }
        if starts_at_root(path) {
            return None;
        }
        let parts = split_pieces(path);
        let mut names: Vec<Vec<u8>> = Vec::new();
        let mut i: usize = 0;
        while i < parts.len()
            invariant
                i <= parts@.len(),
                byte_views(parts@) == pieces(path@),
                forall|j: int|
                    0 <= j < pieces(path@).len() ==> !(#[trigger] pieces(path@)[j]).contains(SEPARATOR),
                forall|j: int| 0 <= j < i ==> #[trigger] pieces(path@)[j] != dot_dot(),
                byte_views(names@) == named(pieces(path@).take(i as int)),
                valid_names(byte_views(names@)),
            decreases parts@.len() - i,
        {
            let ghost prefix = pieces(path@).take(i as int + 1);
            proof {
                assert(prefix.drop_last() =~= pieces(path@).take(i as int));
                assert(prefix.last() == pieces(path@)[i as int]);
                assert(pieces(path@)[i as int] == parts@[i as int]@);
            }
            let piece = copy_bytes(parts[i].as_slice());
            if is_dot_dot(piece.as_slice()) {
                proof {
                    assert(pieces(path@)[i as int] == dot_dot());
                }
                return None;
            }
            if piece.len() > 0 && !is_dot(piece.as_slice()) {
                let ghost before = byte_views(names@);
                let ghost whole = piece@;
                names.push(piece);
                proof {
                    assert(byte_views(names@) =~= before.push(whole));
                    assert(valid_name(whole));
                }
            }
            i = i + 1;
        }
        proof {
            assert(pieces(path@).take(i as int) =~= pieces(path@));
        }
        Some(RelPath { names })
    }

    /// The number of names.
    pub fn depth(&self) -> (depth: usize)
        ensures
            depth == self@.len(),
            valid_names(self@),
    {
        proof {
            use_type_invariant(self);
        }
        self.names.len()
    }

    /// Whether this is the path with no names.
    pub fn is_root(&self) -> (result: bool)
        ensures
            result == (self@.len() == 0),
    {
        self.names.len() == 0
    }

    /// One name.
    pub fn name(&self, index: usize) -> (name: &[u8])
        requires
            index < self@.len(),
        ensures
            name@ == self@[index as int],
    {
        self.names[index].as_slice()
    }

    /// The same path again.
    pub fn copy(&self) -> (path: RelPath)
        ensures
            path@ == self@,
    {
        self.first_names(self.names.len())
    }

    /// The path of the first `count` names.
    fn first_names(&self, count: usize) -> (path: RelPath)
        requires
            count <= self@.len(),
        ensures
            path@ == self@.take(count as int),
    {
        proof {
            use_type_invariant(self);
        }
        let mut names: Vec<Vec<u8>> = Vec::new();
        let mut i: usize = 0;
        while i < count
            invariant
                i <= count <= self.names@.len(),
                valid_names(self@),
                names@.len() == i,
                byte_views(names@) == self@.take(i as int),
            decreases count - i,
        {
            let name = copy_bytes(self.names[i].as_slice());
            let ghost before = byte_views(names@);
            let ghost whole = name@;
            names.push(name);
            proof {
                assert(byte_views(names@) =~= before.push(whole));
                assert(self@.take(i as int + 1) =~= self@.take(i as int).push(self@[i as int]));
            }
            i = i + 1;
        }
        proof {
            assert(self@.take(count as int) =~= byte_views(names@));
            assert forall|j: int| 0 <= j < names@.len() implies valid_name(
                #[trigger] byte_views(names@)[j],
            ) by {
                assert(byte_views(names@)[j] == self@[j]);
            }
        }
        RelPath { names }
    }

    /// The path without its last name; nothing for the root.
    pub fn parent(&self) -> (parent: Option<RelPath>)
        ensures
            match parent {
                Some(path) => self@.len() > 0 && path@ == self@.drop_last(),
                None => self@.len() == 0,
            },
    {
        if self.names.len() == 0 {
            None
        } else {
            let path = self.first_names(self.names.len() - 1);
            proof {
                assert(path@ =~= self@.drop_last());
            }
            Some(path)
        }
    }

    /// Whether both are the same path.
    pub fn equals(&self, other: &RelPath) -> (equal: bool)
        ensures
            equal == (self@ == other@),
    {
        proof {
            assert(self@.len() == self.names@.len());
            assert(other@.len() == other.names@.len());
        }
        self.names.len() == other.names.len() && self.lies_below_or_at(other)
    }

    /// Whether this path is `root` or lies below it.
    pub fn lies_below_or_at(&self, root: &RelPath) -> (result: bool)
        ensures
            result == lies_under(self@, root@),
            self@.len() == root@.len() ==> result == (self@ == root@),
    {
        proof {
            if self@.len() == root@.len() {
                assert(self@.take(root@.len() as int) =~= self@);
            }
        }
        if self.names.len() < root.names.len() {
            return false;
        }
        let mut i: usize = 0;
        while i < root.names.len()
            invariant
                i <= root.names@.len() <= self.names@.len(),
                forall|j: int| 0 <= j < i ==> self@[j] == root@[j],
            decreases root.names@.len() - i,
        {
            if !bytes_equal(self.names[i].as_slice(), root.names[i].as_slice()) {
                proof {
                    assert(self@[i as int] != root@[i as int]);
                    assert(self@.take(root@.len() as int)[i as int] == self@[i as int]);
                }
                return false;
            }
            i = i + 1;
        }
        proof {
            assert(self@.take(root@.len() as int) =~= root@);
        }
        true
    }

    /// Whether this path comes before the other.
    pub fn precedes(&self, other: &RelPath) -> (before: bool)
        ensures
            before == path_before(self@, other@),
    {
        let mut i: usize = 0;
        proof {
            assert(self@.skip(0) =~= self@);
            assert(other@.skip(0) =~= other@);
        }
        while i < self.names.len() && i < other.names.len()
            invariant
                i <= self.names@.len(),
                i <= other.names@.len(),
                path_before(self@, other@) == path_before(self@.skip(i as int), other@.skip(i as int)),
            decreases self.names@.len() - i,
        {
            if !bytes_equal(self.names[i].as_slice(), other.names[i].as_slice()) {
                return bytes_precede(self.names[i].as_slice(), other.names[i].as_slice());
            }
            proof {
                assert(self@.skip(i as int).drop_first() =~= self@.skip(i as int + 1));
                assert(other@.skip(i as int).drop_first() =~= other@.skip(i as int + 1));
            }
            i = i + 1;
        }
        i < other.names.len()
    }

    /// The path that follows `other` from here.
    pub fn join(&self, other: &RelPath) -> (path: RelPath)
        ensures
            path@ == self@ + other@,
    {
        proof {
            use_type_invariant(self);
            use_type_invariant(other);
        }
        let start = self.first_names(self.names.len());
        let mut names: Vec<Vec<u8>> = Vec::new();
        let mut i: usize = 0;
        while i < start.names.len()
            invariant
                i <= start.names@.len(),
                byte_views(names@) == start@.take(i as int),
            decreases start.names@.len() - i,
        {
            let name = copy_bytes(start.names[i].as_slice());
            let ghost before = byte_views(names@);
            let ghost whole = name@;
            names.push(name);
            proof {
                assert(byte_views(names@) =~= before.push(whole));
                assert(start@.take(i as int + 1) =~= start@.take(i as int).push(start@[i as int]));
            }
            i = i + 1;
        }
        proof {
            assert(start@ =~= self@);
            assert(start@.take(i as int) =~= self@);
        }
        let mut j: usize = 0;
        while j < other.names.len()
            invariant
                j <= other.names@.len(),
                byte_views(names@) == self@ + other@.take(j as int),
            decreases other.names@.len() - j,
        {
            let name = copy_bytes(other.names[j].as_slice());
            let ghost before = byte_views(names@);
            let ghost whole = name@;
            names.push(name);
            proof {
                assert(byte_views(names@) =~= before.push(whole));
                assert(self@ + other@.take(j as int + 1) =~= (self@ + other@.take(j as int)).push(
                    other@[j as int],
                ));
            }
            j = j + 1;
        }
        proof {
            assert(other@.take(j as int) =~= other@);
            assert forall|k: int| 0 <= k < names@.len() implies valid_name(
                #[trigger] byte_views(names@)[k],
            ) by {
                if k < self@.len() {
                    assert(byte_views(names@)[k] == self@[k]);
                } else {
                    assert(byte_views(names@)[k] == other@[k - self@.len()]);
                }
            }
        }
        RelPath { names }
    }

    /// The byte string of the path.
    pub fn to_bytes(&self) -> (bytes: Vec<u8>)
        ensures
            bytes@ == joined(self@),
            valid_names(self@),
    {
        proof {
            use_type_invariant(self);
        }
        let mut bytes: Vec<u8> = Vec::new();
        let mut i: usize = 0;
        while i < self.names.len()
            invariant
                i <= self.names@.len(),
                bytes@ == joined(self@.take(i as int)),
            decreases self.names@.len() - i,
        {
            proof {
                assert(self@.take(i as int + 1).drop_last() =~= self@.take(i as int));
                assert(self@.take(i as int + 1).last() == self@[i as int]);
                assert(self@[i as int] == self.names@[i as int]@);
            }
            if i > 0 {
                bytes.push(SEPARATOR);
            }
            let ghost stem = bytes@;
            append_bytes(&mut bytes, self.names[i].as_slice());
            proof {
                if i == 0 {
                    assert(stem + self@[0] =~= self@[0]);
                }
            }
            i = i + 1;
        }
        proof {
            assert(self@.take(i as int) =~= self@);
        }
        bytes
    }
}

/// The names of some normal paths.
pub open spec fn path_views(paths: Seq<RelPath>) -> Seq<Names> {
    Seq::new(paths.len(), |i: int| paths[i]@)
}

/// One part of a path as it was written.
pub enum Part {
    Root,
    Current,
    Parent,
    Name(Seq<u8>),
}

/// The part that a piece stands for: nothing for an empty piece and for a `.`
/// that is not the first piece.
pub open spec fn part_of(piece: Seq<u8>, is_first: bool) -> Option<Part> {
    if piece.len() == 0 {
        None
    } else if piece == dot() {
        if is_first {
            Some(Part::Current)
        } else {
            None
        }
    } else if piece == dot_dot() {
        Some(Part::Parent)
    } else {
        Some(Part::Name(piece))
    }
}

/// The parts that pieces stand for.
pub open spec fn parts_of(written: Seq<Seq<u8>>) -> Seq<Part>
    decreases written.len(),
{
    if written.len() == 0 {
        Seq::empty()
    } else {
        match part_of(written.last(), written.len() == 1) {
            Some(part) => parts_of(written.drop_last()).push(part),
            None => parts_of(written.drop_last()),
        }
    }
}

/// The parts of a path.
pub open spec fn parts(path: Seq<u8>) -> Seq<Part> {
    if is_absolute(path) {
        seq![Part::Root] + parts_of(pieces(path))
    } else {
        parts_of(pieces(path))
    }
}

/// A path without `.` and `..`.
#[verifier::ext_equal]
pub struct Norm {
    pub absolute: bool,
    pub names: Names,
}

/// Where one part leads from a place: `..` at the top stays there.
pub open spec fn follow(from: Norm, part: Part) -> Norm {
    match part {
        Part::Root => Norm { absolute: true, names: Names::empty() },
        Part::Current => from,
        Part::Parent => if from.names.len() == 0 {
            from
        } else {
            Norm { names: from.names.drop_last(), ..from }
        },
        Part::Name(name) => Norm { names: from.names.push(name), ..from },
    }
}

/// Where parts lead from a place.
pub open spec fn follow_all(from: Norm, way: Seq<Part>) -> Norm
    decreases way.len(),
{
    if way.len() == 0 {
        from
    } else {
        follow(follow_all(from, way.drop_last()), way.last())
    }
}

/// The place that relative paths start from.
pub open spec fn nowhere() -> Norm {
    Norm { absolute: false, names: Names::empty() }
}

/// The normal form of a path.
pub open spec fn normal(path: Seq<u8>) -> Norm {
    follow_all(nowhere(), parts(path))
}

/// The normal form of a path that is followed from a base.
pub open spec fn normal_from(base: Seq<u8>, path: Seq<u8>) -> Norm {
    follow_all(normal(base), parts(path))
}

/// The byte string of a path in normal form.
pub open spec fn rendered(path: Norm) -> Seq<u8> {
    if path.absolute {
        seq![SEPARATOR] + joined(path.names)
    } else {
        joined(path.names)
    }
}

/// One part of a path as it was written.
pub enum Component {
    Root,
    Current,
    Parent,
    Name(Vec<u8>),
}

impl View for Component {
    type V = Part;

    open spec fn view(&self) -> Part {
        match self {
            Component::Root => Part::Root,
            Component::Current => Part::Current,
            Component::Parent => Part::Parent,
            Component::Name(name) => Part::Name(name@),
        }
    }
}

/// What written parts stand for.
pub open spec fn part_views(components: Seq<Component>) -> Seq<Part> {
    Seq::new(components.len(), |i: int| components[i]@)
}

/// The names among parts hold no separator.
pub open spec fn parts_valid(way: Seq<Part>) -> bool {
    forall|i: int| 0 <= i < way.len() ==> (#[trigger] way[i] matches Part::Name(name) ==> valid_name(name))
}

proof fn lemma_parts_of_valid(written: Seq<Seq<u8>>)
    requires
        forall|i: int| 0 <= i < written.len() ==> !(#[trigger] written[i]).contains(SEPARATOR),
    ensures
        parts_valid(parts_of(written)),
    decreases written.len(),
{
    if written.len() > 0 {
        let rest = written.drop_last();
        assert forall|i: int| 0 <= i < rest.len() implies !(#[trigger] rest[i]).contains(SEPARATOR) by {
            assert(rest[i] == written[i]);
        }
        lemma_parts_of_valid(rest);
        assert(!written[written.len() - 1].contains(SEPARATOR));
        assert forall|i: int| 0 <= i < parts_of(written).len() implies (#[trigger] parts_of(written)[i] matches Part::Name(
            name,
        ) ==> valid_name(name)) by {
            if i < parts_of(rest).len() {
                assert(parts_of(written)[i] == parts_of(rest)[i]);
            }
        }
    }
}

/// The names among the parts of a path are valid.
pub proof fn lemma_parts_valid(path: Seq<u8>)
    ensures
        parts_valid(parts(path)),
{
    lemma_pieces_hold_no_separator(path);
    lemma_parts_of_valid(pieces(path));
    let way = parts(path);
    if is_absolute(path) {
        assert forall|i: int| 0 <= i < way.len() implies (#[trigger] way[i] matches Part::Name(name)
            ==> valid_name(name)) by {
            if i > 0 {
                assert(way[i] == parts_of(pieces(path))[i - 1]);
            }
        }
    }
}

/// The parts of a path.
pub fn components(path: &[u8]) -> (result: Vec<Component>)
    ensures
        part_views(result@) == parts(path@),
{
    let written = split_pieces(path);
    let ghost all = pieces(path@);
    let mut result: Vec<Component> = Vec::new();
    let absolute = starts_at_root(path);
    if absolute {
        result.push(Component::Root);
    }
    let ghost head = part_views(result@);
    proof {
        if absolute {
            assert(head =~= seq![Part::Root]);
        } else {
            assert(head =~= Seq::<Part>::empty());
        }
        assert(head + parts_of(all.take(0)) =~= head);
    }
    let mut i: usize = 0;
    while i < written.len()
        invariant
            i <= written@.len(),
            byte_views(written@) == all,
            part_views(result@) == head + parts_of(all.take(i as int)),
        decreases written@.len() - i,
    {
        let ghost before = part_views(result@);
        proof {
            assert(all.take(i as int + 1).drop_last() =~= all.take(i as int));
            assert(all.take(i as int + 1).last() == written@[i as int]@);
        }
        let piece = copy_bytes(written[i].as_slice());
        if piece.len() > 0 {
            if is_dot(piece.as_slice()) {
                if i == 0 {
                    result.push(Component::Current);
                    proof {
                        assert(part_views(result@) =~= before.push(Part::Current));
                    }
                }
            } else if is_dot_dot(piece.as_slice()) {
                result.push(Component::Parent);
                proof {
                    assert(part_views(result@) =~= before.push(Part::Parent));
                }
            } else {
                let ghost name = piece@;
                result.push(Component::Name(piece));
                proof {
                    assert(part_views(result@) =~= before.push(Part::Name(name)));
                }
            }
        }
        proof {
            assert(part_views(result@) =~= head + parts_of(all.take(i as int + 1)));
        }
        i = i + 1;
    }
    proof {
        assert(all.take(i as int) =~= all);
        assert(part_views(result@) =~= parts(path@));
    }
    result
}

/// A path without `.` and `..`.
pub struct NormPath {
    pub absolute: bool,
    pub names: RelPath,
}

impl View for NormPath {
    type V = Norm;

    open spec fn view(&self) -> Norm {
        Norm { absolute: self.absolute, names: self.names@ }
    }
}

impl NormPath {
    /// The place that relative paths start from.
    pub fn nowhere() -> (path: NormPath)
        ensures
            path@ == nowhere(),
    {
        NormPath { absolute: false, names: RelPath::root() }
    }

    /// The normal form of a path.
    pub fn of(path: &[u8]) -> (result: NormPath)
        ensures
            result@ == normal(path@),
    {
        let start = NormPath::nowhere();
        start.followed_by(path)
    }

    /// Where a path leads from here.
    pub fn followed_by(&self, path: &[u8]) -> (result: NormPath)
        ensures
            result@ == follow_all(self@, parts(path@)),
    {
        let way = components(path);
        proof {
            lemma_parts_valid(path@);
            assert(part_views(way@).skip(0) =~= parts(path@));
        }
        self.follow_from(&way, 0)
    }

    /// Where the parts from one on lead from here.
    pub fn follow_from(&self, way: &Vec<Component>, from: usize) -> (result: NormPath)
        requires
            from <= way@.len(),
            parts_valid(part_views(way@)),
        ensures
            result@ == follow_all(self@, part_views(way@).skip(from as int)),
    {
        let ghost whole = part_views(way@);
        let ghost rest = whole.skip(from as int);
        let mut absolute = self.absolute;
        let start = self.names.copy();
        let mut names = start.into_names();
        let mut i: usize = from;
        proof {
            assert(rest.take(0) =~= Seq::<Part>::empty());
            assert(Norm { absolute, names: byte_views(names@) } =~= self@);
        }
        while i < way.len()
            invariant
                from <= i <= way@.len(),
                whole == part_views(way@),
                rest == whole.skip(from as int),
                parts_valid(whole),
                (Norm { absolute, names: byte_views(names@) }) == follow_all(self@, rest.take(i - from)),
                valid_names(byte_views(names@)),
            decreases way@.len() - i,
        {
            let ghost before = byte_views(names@);
            proof {
                assert(rest.take(i - from + 1).drop_last() =~= rest.take(i - from));
                assert(rest.take(i - from + 1).last() == whole[i as int]);
                assert(whole[i as int] == way@[i as int]@);
            }
            match &way[i] {
                Component::Root => {
                    absolute = true;
                    names = Vec::new();
                    proof {
                        assert(byte_views(names@) =~= Names::empty());
                    }
                },
                Component::Current => {},
                Component::Parent => {
                    if names.len() > 0 {
                        let ghost held = names@;
                        names.pop();
                        proof {
                            assert(names@ == held.drop_last());
                            assert(byte_views(names@) =~= before.drop_last());
                            assert forall|k: int| 0 <= k < before.drop_last().len() implies valid_name(
                                #[trigger] before.drop_last()[k],
                            ) by {
                                assert(before.drop_last()[k] == before[k]);
                            }
                        }
                    }
                },
                Component::Name(name) => {
                    let copied = copy_bytes(name.as_slice());
                    let ghost added = copied@;
                    names.push(copied);
                    proof {
                        assert(byte_views(names@) =~= before.push(added));
                        assert(valid_name(added));
                    }
                },
            }
            proof {
                assert(Norm { absolute, names: byte_views(names@) } =~= follow_all(
                    self@,
                    rest.take(i - from + 1),
                ));
            }
            i = i + 1;
        }
        proof {
            assert(rest.take(i - from) =~= rest);
        }
        NormPath { absolute, names: RelPath::from_names(names) }
    }

    /// The byte string of the path.
    pub fn to_bytes(&self) -> (bytes: Vec<u8>)
        ensures
            bytes@ == rendered(self@),
    {
        let tail = self.names.to_bytes();
        if self.absolute {
            let mut bytes: Vec<u8> = Vec::new();
            bytes.push(SEPARATOR);
            append_bytes(&mut bytes, tail.as_slice());
            proof {
                assert(bytes@ =~= rendered(self@));
            }
            bytes
        } else {
            tail
        }
    }
}

impl RelPath {
    /// Gives the names up.
    fn into_names(self) -> (names: Vec<Vec<u8>>)
        ensures
            byte_views(names@) == self@,
            valid_names(self@),
    {
        proof {
            use_type_invariant(&self);
        }
        self.names
    }

    /// The path of valid names.
    fn from_names(names: Vec<Vec<u8>>) -> (path: RelPath)
        requires
            valid_names(byte_views(names@)),
        ensures
            path@ == byte_views(names@),
    {
        RelPath { names }
    }
}

/// Whether one way starts with another.
pub open spec fn starts_with(way: Seq<Part>, prefix: Seq<Part>) -> bool {
    prefix.len() <= way.len() && way.take(prefix.len() as int) == prefix
}

/// Whether two parts are the same.
fn same_component(a: &Component, b: &Component) -> (same: bool)
    ensures
        same == (a@ == b@),
{
    match (a, b) {
        (Component::Root, Component::Root) => true,
        (Component::Current, Component::Current) => true,
        (Component::Parent, Component::Parent) => true,
        (Component::Name(left), Component::Name(right)) => bytes_equal(left.as_slice(), right.as_slice()),
        _ => false,
    }
}

/// Whether one way starts with another.
pub fn way_starts_with(way: &Vec<Component>, prefix: &Vec<Component>) -> (result: bool)
    ensures
        result == starts_with(part_views(way@), part_views(prefix@)),
{
    if prefix.len() > way.len() {
        return false;
    }
    let ghost a = part_views(way@);
    let ghost b = part_views(prefix@);
    let mut i: usize = 0;
    while i < prefix.len()
        invariant
            a == part_views(way@),
            b == part_views(prefix@),
            prefix@.len() <= way@.len(),
            i <= prefix@.len(),
            forall|j: int| 0 <= j < i ==> a[j] == b[j],
        decreases prefix@.len() - i,
    {
        if !same_component(&way[i], &prefix[i]) {
            proof {
                assert(a[i as int] != b[i as int]);
                assert(a.take(b.len() as int)[i as int] == a[i as int]);
            }
            return false;
        }
        i = i + 1;
    }
    proof {
        assert(a.take(b.len() as int) =~= b);
    }
    true
}

/// Whether one path lies at or below another, part by part.
pub fn path_starts_with(path: &[u8], root: &[u8]) -> (result: bool)
    ensures
        result == starts_with(parts(path@), parts(root@)),
{
    let way = components(path);
    let prefix = components(root);
    way_starts_with(&way, &prefix)
}

/// The last name of a path, where its last part is a name.
pub open spec fn last_name(path: Seq<u8>) -> Option<Seq<u8>> {
    let way = parts(path);
    if way.len() > 0 && way.last() is Name {
        Some(way.last()->Name_0)
    } else {
        None
    }
}

/// The last name of a path, where its last part is a name.
pub fn file_name(path: &[u8]) -> (result: Option<Vec<u8>>)
    ensures
        match result {
            Some(name) => last_name(path@) == Some(name@),
            None => last_name(path@) is None,
        },
{
    let way = components(path);
    if way.len() == 0 {
        return None;
    }
    let ghost all = part_views(way@);
    proof {
        assert(all.last() == way@[way@.len() - 1]@);
    }
    match &way[way.len() - 1] {
        Component::Name(name) => Some(copy_bytes(name.as_slice())),
        _ => None,
    }
}

/// A leading separator puts one empty piece in front.
proof fn lemma_pieces_after_separator(path: Seq<u8>)
    ensures
        pieces(seq![SEPARATOR] + path) == seq![Seq::<u8>::empty()] + pieces(path),
    decreases path.len(),
{
    let whole = seq![SEPARATOR] + path;
    lemma_pieces_hold_no_separator(path);
    if path.len() == 0 {
        assert(whole =~= seq![SEPARATOR]);
        assert(whole.drop_last() =~= Seq::<u8>::empty());
        assert(pieces(whole.drop_last()) =~= seq![Seq::<u8>::empty()]);
        assert(pieces(whole) == pieces(whole.drop_last()).push(Seq::empty()));
        assert(pieces(path) =~= seq![Seq::<u8>::empty()]);
        assert(pieces(whole) =~= seq![Seq::<u8>::empty()] + pieces(path));
    } else {
        lemma_pieces_after_separator(path.drop_last());
        assert(whole.drop_last() =~= seq![SEPARATOR] + path.drop_last());
        assert(whole.last() == path.last());
        let before = pieces(path.drop_last());
        lemma_pieces_hold_no_separator(path.drop_last());
        assert((seq![Seq::<u8>::empty()] + before).last() == before.last());
        assert((seq![Seq::<u8>::empty()] + before).drop_last() =~= seq![Seq::<u8>::empty()]
            + before.drop_last());
        assert(pieces(whole) =~= seq![Seq::<u8>::empty()] + pieces(path));
    }
}

/// The parts of names are those names, whatever empty piece stands in front.
proof fn lemma_parts_of_names(head: Seq<Seq<u8>>, names: Names, from: Norm)
    requires
        valid_names(names),
        head.len() == 0 || head =~= seq![Seq::<u8>::empty()],
    ensures
        follow_all(from, parts_of(head + names)) == (Norm { names: from.names + names, ..from }),
    decreases names.len(),
{
    if names.len() == 0 {
        assert(head + names =~= head);
        if head.len() > 0 {
            assert(head.drop_last() =~= Seq::<Seq<u8>>::empty());
            assert(parts_of(head) == parts_of(head.drop_last()));
        }
        assert(parts_of(head) =~= Seq::<Part>::empty());
        assert(from.names + names =~= from.names);
    } else {
        let rest = names.drop_last();
        assert forall|i: int| 0 <= i < rest.len() implies valid_name(#[trigger] rest[i]) by {
            assert(rest[i] == names[i]);
        }
        lemma_parts_of_names(head, rest, from);
        assert(valid_name(names[names.len() - 1]));
        let all = head + names;
        assert(all.drop_last() =~= head + rest);
        assert(all.last() == names.last());
        let way = parts_of(all);
        assert(way == parts_of(head + rest).push(Part::Name(names.last())));
        assert(way.drop_last() =~= parts_of(head + rest));
        assert((from.names + rest).push(names.last()) =~= from.names + names);
    }
}

/// Normalizing the byte string of a normal path changes nothing.
pub proof fn law_normal_paths_stay(path: Norm)
    requires
        valid_names(path.names),
    ensures
        normal(rendered(path)) == path,
{
    let bytes = rendered(path);
    let names = path.names;
    if names.len() > 0 {
        lemma_pieces_of_joined(names);
    }
    if path.absolute {
        lemma_pieces_after_separator(joined(names));
        let head = seq![Seq::<u8>::empty()];
        let root = Norm { absolute: true, names: Names::empty() };
        if names.len() > 0 {
            lemma_parts_of_names(head, names, root);
        } else {
            assert(joined(names) =~= Seq::<u8>::empty());
            assert(pieces(joined(names)) =~= seq![Seq::<u8>::empty()]);
            let both = head + head;
            assert(pieces(bytes) =~= both);
            assert(both.drop_last() =~= head);
            assert(head.drop_last() =~= Seq::<Seq<u8>>::empty());
            assert(parts_of(both) == parts_of(head));
            assert(parts_of(head) == parts_of(head.drop_last()));
            assert(parts_of(both) =~= Seq::<Part>::empty());
        }
        let tail = parts_of(pieces(bytes));
        lemma_follow_root(tail);
        assert(root.names + names =~= names);
        assert(normal(bytes) =~= path);
    } else {
        if names.len() > 0 {
            assert(Seq::<Seq<u8>>::empty() + names =~= names);
            lemma_parts_of_names(Seq::empty(), names, nowhere());
            assert(nowhere().names + names =~= names);
        } else {
            assert(bytes =~= Seq::<u8>::empty());
            assert(pieces(bytes) =~= seq![Seq::<u8>::empty()]);
            assert(pieces(bytes).drop_last() =~= Seq::<Seq<u8>>::empty());
            assert(parts_of(pieces(bytes)) == parts_of(pieces(bytes).drop_last()));
            assert(parts_of(pieces(bytes)) =~= Seq::<Part>::empty());
        }
        assert(normal(bytes) =~= path);
    }
}

/// Following the root first is following from the root.
proof fn lemma_follow_root(way: Seq<Part>)
    ensures
        follow_all(nowhere(), seq![Part::Root] + way) == follow_all(
            Norm { absolute: true, names: Names::empty() },
            way,
        ),
    decreases way.len(),
{
    let whole = seq![Part::Root] + way;
    if way.len() == 0 {
        assert(whole =~= seq![Part::Root]);
        assert(whole.drop_last() =~= Seq::<Part>::empty());
    } else {
        lemma_follow_root(way.drop_last());
        assert(whole.drop_last() =~= seq![Part::Root] + way.drop_last());
        assert(whole.last() == way.last());
    }
}

/// A path with a relative one behind it.
pub open spec fn joined_path(base: Seq<u8>, name: Seq<u8>) -> Seq<u8> {
    if base.len() == 0 {
        name
    } else if base.last() == SEPARATOR {
        base + name
    } else {
        base.push(SEPARATOR) + name
    }
}

/// A path with a relative one behind it.
pub fn join_path(base: &[u8], name: &[u8]) -> (path: Vec<u8>)
    ensures
        path@ == joined_path(base@, name@),
{
    let mut path = copy_bytes(base);
    if path.len() > 0 && path[path.len() - 1] != SEPARATOR {
        path.push(SEPARATOR);
    }
    let ghost stem = path@;
    append_bytes(&mut path, name);
    proof {
        if base@.len() == 0 {
            assert(stem + name@ =~= name@);
        }
    }
    path
}

/// Whether two paths are the same, part by part.
pub fn same_path(a: &[u8], b: &[u8]) -> (same: bool)
    ensures
        same == (parts(a@) == parts(b@)),
{
    let left = components(a);
    let right = components(b);
    proof {
        assert(part_views(left@).len() == left@.len());
        assert(part_views(right@).len() == right@.len());
        if left@.len() == right@.len() {
            assert(part_views(left@).take(right@.len() as int) =~= part_views(left@));
        }
    }
    left.len() == right.len() && way_starts_with(&left, &right)
}

/// Whether a path has a part to leave out: all but the root and the empty path.
pub open spec fn has_parent(path: Seq<u8>) -> bool {
    parts(path).len() > 0 && !(parts(path).last() is Root)
}

/// The way that parts lead, as a byte string.
pub open spec fn way_bytes(way: Seq<Part>) -> Seq<u8>
    decreases way.len(),
{
    if way.len() == 0 {
        Seq::empty()
    } else {
        let before = way_bytes(way.drop_last());
        match way.last() {
            Part::Root => seq![SEPARATOR],
            Part::Current => joined_path(before, dot()),
            Part::Parent => joined_path(before, dot_dot()),
            Part::Name(name) => joined_path(before, name),
        }
    }
}

/// The way that some of the parts lead, as a byte string.
pub fn way_to_bytes(way: &Vec<Component>, from: usize, to: usize) -> (bytes: Vec<u8>)
    requires
        from <= to <= way@.len(),
    ensures
        bytes@ == way_bytes(part_views(way@).subrange(from as int, to as int)),
{
    let ghost all = part_views(way@).subrange(from as int, to as int);
    let mut bytes: Vec<u8> = Vec::new();
    let mut i: usize = from;
    proof {
        assert(all.take(0) =~= Seq::<Part>::empty());
        assert(bytes@ =~= way_bytes(all.take(0)));
    }
    while i < to
        invariant
            from <= i <= to <= way@.len(),
            all == part_views(way@).subrange(from as int, to as int),
            bytes@ == way_bytes(all.take(i - from)),
        decreases to - i,
    {
        proof {
            assert(all.take(i - from + 1).drop_last() =~= all.take(i - from));
            assert(all.take(i - from + 1).last() == all[i - from]);
            assert(all[i - from] == way@[i as int]@);
        }
        match &way[i] {
            Component::Root => {
                bytes = Vec::new();
                bytes.push(SEPARATOR);
                proof {
                    assert(bytes@ =~= seq![SEPARATOR]);
                }
            },
            Component::Current => {
                let piece: Vec<u8> = vec![DOT];
                proof {
                    assert(piece@ =~= dot());
                }
                bytes = join_path(bytes.as_slice(), piece.as_slice());
            },
            Component::Parent => {
                let piece: Vec<u8> = vec![DOT, DOT];
                proof {
                    assert(piece@ =~= dot_dot());
                }
                bytes = join_path(bytes.as_slice(), piece.as_slice());
            },
            Component::Name(name) => {
                bytes = join_path(bytes.as_slice(), name.as_slice());
            },
        }
        i = i + 1;
    }
    proof {
        assert(all.take(i - from) =~= all);
    }
    bytes
}

/// The path without its last part.
pub fn parent_path(path: &[u8]) -> (parent: Option<Vec<u8>>)
    ensures
        match parent {
            Some(bytes) => has_parent(path@) && bytes@ == way_bytes(parts(path@).drop_last()),
            None => !has_parent(path@),
        },
{
    let way = components(path);
    let ghost all = parts(path@);
    if way.len() == 0 {
        return None;
    }
    proof {
        assert(part_views(way@).last() == way@[way@.len() - 1]@);
        assert(all.drop_last() =~= all.subrange(0, all.len() - 1));
    }
    match &way[way.len() - 1] {
        Component::Root => None,
        _ => Some(way_to_bytes(&way, 0, way.len() - 1)),
    }
}

/// What is left of a path behind a prefix that it starts with.
pub fn strip_prefix(path: &[u8], prefix: &[u8]) -> (rest: Option<Vec<u8>>)
    ensures
        match rest {
            Some(bytes) => starts_with(parts(path@), parts(prefix@)) && bytes@ == way_bytes(
                parts(path@).skip(parts(prefix@).len() as int),
            ),
            None => !starts_with(parts(path@), parts(prefix@)),
        },
{
    let way = components(path);
    let start = components(prefix);
    if way_starts_with(&way, &start) {
        proof {
            let all = parts(path@);
            assert(all.skip(start@.len() as int) =~= all.subrange(start@.len() as int, all.len() as int));
        }
        Some(way_to_bytes(&way, start.len(), way.len()))
    } else {
        None
    }
}

/// The bytes that some pieces make up, with a separator between each two.
pub open spec fn put_together(written: Seq<Seq<u8>>) -> Seq<u8>
    decreases written.len(),
{
    if written.len() == 0 {
        Seq::empty()
    } else if written.len() == 1 {
        written[0]
    } else {
        put_together(written.drop_last()).push(0x2f) + written.last()
    }
}

/// A path is cut at its separators: no piece holds one, and put together the pieces are the
/// path again.
pub proof fn law_pieces_make_up_the_path(path: Seq<u8>)
    ensures
        pieces(path).len() > 0,
        put_together(pieces(path)) == path,
        forall|i: int| 0 <= i < pieces(path).len() ==> !(#[trigger] pieces(path)[i]).contains(0x2f),
    decreases path.len(),
{
    if path.len() == 0 {
        assert(pieces(path)[0] =~= Seq::empty());
        assert(put_together(pieces(path)) =~= path);
    } else {
        let rest = path.drop_last();
        let before = pieces(rest);
        law_pieces_make_up_the_path(rest);
        let all = pieces(path);
        if path.last() == 0x2f {
            assert(all.drop_last() =~= before);
            assert(all.last() =~= Seq::empty());
            assert(put_together(all) == put_together(before).push(0x2f) + all.last());
            assert(put_together(all) =~= path);
            assert forall|i: int| 0 <= i < all.len() implies !(#[trigger] all[i]).contains(0x2f) by {
                if i < before.len() {
                    assert(all[i] == before[i]);
                }
            }
        } else {
            let last = before.last();
            let grown = last.push(path.last());
            assert(all.drop_last() =~= before.drop_last());
            assert(all.last() == grown);
            if before.len() == 1 {
                assert(put_together(all) == grown);
                assert(put_together(before) == last);
            } else {
                let front = put_together(before.drop_last()).push(0x2f);
                assert(put_together(all) == front + grown);
                assert(put_together(before) == front + last);
                assert(front + grown =~= (front + last).push(path.last()));
            }
            assert(put_together(all) =~= rest.push(path.last()));
            assert(rest.push(path.last()) =~= path);
            assert forall|i: int| 0 <= i < all.len() implies !(#[trigger] all[i]).contains(0x2f) by {
                if i < before.len() - 1 {
                    assert(all[i] == before[i]);
                } else {
                    assert(!before[before.len() - 1].contains(0x2f));
                    if grown.contains(0x2f) {
                        let k = choose|k: int| 0 <= k < grown.len() && grown[k] == 0x2f;
                        assert(k < last.len());
                        assert(last.contains(last[k]));
                    }
                }
            }
        }
    }
}

/// A path is relative exactly where it does not start at the root and no piece of it leads
/// up; its names are the pieces that are neither empty nor a dot.
pub proof fn law_relative_paths_stay_below(path: Seq<u8>)
    ensures
        relative_names(path) is None <==> (path.len() > 0 && path[0] == 0x2f) || pieces(path).contains(
            seq![0x2eu8, 0x2eu8],
        ),
        relative_names(path) matches Some(names) ==> names == pieces(path).filter(
            |piece: Seq<u8>| piece.len() > 0 && piece != seq![0x2eu8],
        ),
{
    assert(dot_dot() =~= seq![0x2eu8, 0x2eu8]);
    if !pieces(path).contains(dot_dot()) {
        lemma_named_is_a_filter(pieces(path));
    }
}

proof fn lemma_named_is_a_filter(written: Seq<Seq<u8>>)
    requires
        !written.contains(dot_dot()),
    ensures
        named(written) == written.filter(|piece: Seq<u8>| piece.len() > 0 && piece != seq![0x2eu8]),
    decreases written.len(),
{
    reveal(Seq::filter);
    if written.len() > 0 {
        let rest = written.drop_last();
        assert(written[written.len() - 1] == written.last());
        if rest.contains(dot_dot()) {
            let k = choose|k: int| 0 <= k < rest.len() && rest[k] == dot_dot();
            assert(written[k] == dot_dot());
        }
        assert(written.last() != dot_dot());
        assert(dot() =~= seq![0x2eu8]);
        lemma_named_is_a_filter(rest);
    }
}

/// Following a path: a name leads down, two dots undo it and stay at the top, one dot stays,
/// and a root starts over.
pub proof fn law_parents_undo_names(from: Norm, name: Seq<u8>)
    ensures
        follow(follow(from, Part::Name(name)), Part::Parent) == from,
        follow(from, Part::Name(name)).names == from.names.push(name),
        follow(from, Part::Name(name)).absolute == from.absolute,
        from.names.len() == 0 ==> follow(from, Part::Parent) == from,
        follow(from, Part::Current) == from,
        follow(from, Part::Root) == (Norm { absolute: true, names: Names::empty() }),
{
    assert(from.names.push(name).drop_last() =~= from.names);
}

/// What pieces of a path mean: nothing where they are empty, the way up for two dots, the
/// place itself for one dot at the front, and otherwise a name.
pub proof fn law_pieces_mean_parts(piece: Seq<u8>, is_first: bool)
    ensures
        piece.len() == 0 ==> part_of(piece, is_first) is None,
        piece == seq![0x2eu8] ==> part_of(piece, is_first) == if is_first {
            Some(Part::Current)
        } else {
            None
        },
        piece == seq![0x2eu8, 0x2eu8] ==> part_of(piece, is_first) == Some(Part::Parent),
        piece.len() > 0 && piece != seq![0x2eu8] && piece != seq![0x2eu8, 0x2eu8] ==> part_of(piece, is_first) == Some(
            Part::Name(piece),
        ),
{
    assert(dot() =~= seq![0x2eu8]);
    assert(dot_dot() =~= seq![0x2eu8, 0x2eu8]);
    assert(dot().len() == 1 && dot_dot().len() == 2);
}

/// Bytes are ordered by the first byte in which they differ, and what ends first comes
/// first.
pub proof fn law_first_difference_decides(shared: Seq<u8>, a: Seq<u8>, b: Seq<u8>)
    requires
        b.len() > 0,
        a.len() > 0 ==> a[0] < b[0],
    ensures
        bytes_before(shared + a, shared + b),
        !bytes_before(shared + b, shared + a),
    decreases shared.len(),
{
    let left = shared + a;
    let right = shared + b;
    if shared.len() == 0 {
        assert(left =~= a);
        assert(right =~= b);
    } else {
        assert(left[0] == shared[0] && right[0] == shared[0]);
        assert(left.drop_first() =~= shared.drop_first() + a);
        assert(right.drop_first() =~= shared.drop_first() + b);
        law_first_difference_decides(shared.drop_first(), a, b);
    }
}

/// Paths are ordered by the first name in which they differ, and a directory comes before
/// what it holds.
pub proof fn law_directories_come_before_what_they_hold(shared: Names, a: Names, b: Names)
    requires
        b.len() > 0,
        a.len() > 0 ==> a[0] != b[0] && bytes_before(a[0], b[0]),
    ensures
        path_before(shared + a, shared + b),
        path_before(shared, shared + b),
    decreases shared.len(),
{
    let left = shared + a;
    let right = shared + b;
    if shared.len() == 0 {
        assert(left =~= a);
        assert(right =~= b);
    } else {
        assert(left[0] == shared[0] && right[0] == shared[0]);
        assert(left.drop_first() =~= shared.drop_first() + a);
        assert(right.drop_first() =~= shared.drop_first() + b);
        law_directories_come_before_what_they_hold(shared.drop_first(), a, b);
    }
}

/// A name is appended to a path behind one separator.
pub proof fn law_names_are_appended(base: Seq<u8>, name: Seq<u8>)
    ensures
        base.len() == 0 ==> joined_path(base, name) == name,
        base.len() > 0 ==> {
            let whole = joined_path(base, name);
            &&& whole.take(base.len() as int) == base
            &&& whole.skip(whole.len() - name.len()) == name
            &&& whole[whole.len() - name.len() - 1] == 0x2f
            &&& whole.len() == base.len() + name.len() + if base.last() == 0x2f {
                0int
            } else {
                1int
            }
        },
{
    if base.len() > 0 {
        let whole = joined_path(base, name);
        assert(whole.take(base.len() as int) =~= base);
        assert(whole.skip(whole.len() - name.len()) =~= name);
    }
}

} // verus!
