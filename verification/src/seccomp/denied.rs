//! The files that are denied: by path prefix, and by the identity that a file
//! keeps whatever it is called.

use crate::byte_set;
use crate::byte_set::ByteSet;
use crate::path;
use crate::path::{append_bytes, path_starts_with};
use crate::seccomp::network::LivePolicy;
use crate::text;
use crate::text_set;
use crate::text_set::TextSet;
use vstd::bytes::*;
use vstd::prelude::*;

verus! {

/// The identity of a file: its kernel handle, with the filesystem that it is of.
#[derive(Debug)]
pub struct FileId {
    pub dev: u64,
    pub handle_type: i32,
    pub handle: Vec<u8>,
}

/// What the identity of a file is.
#[verifier::ext_equal]
pub struct FileIdView {
    pub dev: u64,
    pub handle_type: i32,
    pub handle: Seq<u8>,
}

impl View for FileId {
    type V = FileIdView;

    open spec fn view(&self) -> FileIdView {
        FileIdView { dev: self.dev, handle_type: self.handle_type, handle: self.handle@ }
    }
}

/// The bytes of an identity.
pub open spec fn id_image(id: FileIdView) -> Seq<u8> {
    spec_u64_to_le_bytes(id.dev) + spec_u32_to_le_bytes(id.handle_type as u32) + id.handle
}

/// Identities that differ differ as bytes.
pub proof fn lemma_id_images_differ(a: FileIdView, b: FileIdView)
    requires
        id_image(a) == id_image(b),
    ensures
        a == b,
{
    lemma_auto_spec_u64_to_from_le_bytes();
    lemma_auto_spec_u32_to_from_le_bytes();
    let image = id_image(a);
    assert(image.subrange(0, 8) =~= spec_u64_to_le_bytes(a.dev));
    assert(image.subrange(0, 8) =~= spec_u64_to_le_bytes(b.dev));
    assert(image.subrange(8, 12) =~= spec_u32_to_le_bytes(a.handle_type as u32));
    assert(image.subrange(8, 12) =~= spec_u32_to_le_bytes(b.handle_type as u32));
    assert(image.skip(12) =~= a.handle);
    assert(image.skip(12) =~= b.handle);
    let x = a.handle_type;
    let y = b.handle_type;
    assert(x as u32 == y as u32);
    assert(x == y) by (bit_vector)
        requires
            x as u32 == y as u32,
    ;
}

fn write_id(id: &FileId) -> (bytes: Vec<u8>)
    ensures
        bytes@ == id_image(id@),
{
    let mut bytes = u64_to_le_bytes(id.dev);
    let kind = u32_to_le_bytes(id.handle_type as u32);
    append_bytes(&mut bytes, kind.as_slice());
    append_bytes(&mut bytes, id.handle.as_slice());
    bytes
}

/// The files that are denied.
#[derive(Debug)]
pub struct DeniedSet {
    paths: TextSet,
    ids: ByteSet,
}

/// What is denied.
#[verifier::ext_equal]
pub struct DeniedView {
    pub paths: Set<Seq<char>>,
    pub ids: Set<FileIdView>,
}

impl View for DeniedSet {
    type V = DeniedView;

    closed spec fn view(&self) -> DeniedView {
        DeniedView {
            paths: self.paths@,
            ids: Set::new(|id: FileIdView| self.ids@.contains(id_image(id))),
        }
    }
}

/// Whether a path lies at or below a denied one, part by part.
pub open spec fn path_is_denied(paths: Set<Seq<char>>, written: Seq<char>) -> bool {
    exists|denied: Seq<char>| #[trigger]
        paths.contains(denied) && path::starts_with(
            path::parts(vstd::utf8::encode_utf8(written)),
            path::parts(vstd::utf8::encode_utf8(denied)),
        )
}

/// A file identity that may not be known.
pub open spec fn optional_id(id: Option<FileId>) -> Option<FileIdView> {
    match id {
        Some(known) => Some(known@),
        None => None,
    }
}

/// What is denied once a path was denied, with the identity that the file has.
pub open spec fn after_deny(denied: DeniedView, written: Seq<char>, id: Option<FileIdView>) -> DeniedView {
    DeniedView {
        paths: denied.paths.insert(written),
        ids: match id {
            Some(known) => denied.ids.insert(known),
            None => denied.ids,
        },
    }
}

/// What is denied once a path was allowed again, with the identity that the file
/// has.
pub open spec fn after_allow(denied: DeniedView, written: Seq<char>, id: Option<FileIdView>) -> DeniedView {
    DeniedView {
        paths: denied.paths.remove(written),
        ids: match id {
            Some(known) => denied.ids.remove(known),
            None => denied.ids,
        },
    }
}

/// Nothing is denied.
pub open spec fn nothing_denied() -> DeniedView {
    DeniedView { paths: Set::empty(), ids: Set::empty() }
}

impl Default for DeniedSet {
    fn default() -> (denied: DeniedSet)
        ensures
            denied.wf(),
            denied@ == nothing_denied(),
    {
        let denied = DeniedSet { paths: TextSet::new(), ids: ByteSet::new() };
        proof {
            assert(denied@ =~= nothing_denied());
        }
        denied
    }
}

impl DeniedSet {
    /// Each path stands once, and the bytes of each identity are those of one.
    pub closed spec fn wf(&self) -> bool {
        &&& self.paths.wf()
        &&& self.ids.wf()
        &&& forall|bytes: Seq<u8>| #[trigger]
            self.ids@.contains(bytes) ==> exists|id: FileIdView| #[trigger] id_image(id) == bytes
    }

    /// Denies a path and what lies below it; and the file that it names now, where
    /// that has an identity, under every other name too.
    pub fn deny(&mut self, written: &str, id: &Option<FileId>)
        requires
            old(self).wf(),
        ensures
            final(self).wf(),
            final(self)@ == after_deny(old(self)@, written@, optional_id(*id)),
    {
        let ghost before = self@;
        let ghost ids = self.ids@;
        self.paths.insert(written);
        match id {
            Some(known) => {
                let bytes = write_id(known);
                let _ = self.ids.insert(bytes.as_slice());
                proof {
                    assert forall|other: FileIdView| #[trigger] self@.ids.contains(other) <==> before.ids.insert(
                        known@,
                    ).contains(other) by {
                        if id_image(other) == id_image(known@) {
                            lemma_id_images_differ(other, known@);
                        }
                    }
                    assert(self@ =~= after_deny(before, written@, optional_id(*id)));
                    assert forall|image: Seq<u8>| #[trigger] self.ids@.contains(image) implies exists|each: FileIdView|
                        #[trigger] id_image(each) == image by {
                        if image != bytes@ {
                            assert(ids.contains(image));
                        } else {
                            assert(id_image(known@) == image);
                        }
                    }
                }
            },
            None => {
                proof {
                    assert(self@ =~= after_deny(before, written@, optional_id(*id)));
                }
            },
        }
    }

    /// Stops denying a path, and the file that it names now.
    pub fn allow(&mut self, written: &str, id: &Option<FileId>)
        requires
            old(self).wf(),
        ensures
            final(self).wf(),
            final(self)@ == after_allow(old(self)@, written@, optional_id(*id)),
    {
        let ghost before = self@;
        let ghost ids = self.ids@;
        self.paths.remove(written);
        match id {
            Some(known) => {
                let bytes = write_id(known);
                let _ = self.ids.remove(bytes.as_slice());
                proof {
                    assert forall|other: FileIdView| #[trigger] self@.ids.contains(other) <==> before.ids.remove(
                        known@,
                    ).contains(other) by {
                        if id_image(other) == id_image(known@) {
                            lemma_id_images_differ(other, known@);
                        }
                    }
                    assert(self@ =~= after_allow(before, written@, optional_id(*id)));
                    assert forall|image: Seq<u8>| #[trigger] self.ids@.contains(image) implies exists|each: FileIdView|
                        #[trigger] id_image(each) == image by {
                        assert(ids.contains(image));
                    }
                }
            },
            None => {
                proof {
                    assert(self@ =~= after_allow(before, written@, optional_id(*id)));
                }
            },
        }
    }

    /// Whether a path lies at or below a denied one.
    pub fn is_path_denied(&self, written: &str) -> (result: bool)
        ensures
            result == path_is_denied(self@.paths, written@),
    {
        let mut i: usize = 0;
        while i < self.paths.len()
            invariant
                i <= self.paths.items().len(),
                forall|j: int|
                    0 <= j < i ==> !path::starts_with(
                        path::parts(vstd::utf8::encode_utf8(written@)),
                        path::parts(vstd::utf8::encode_utf8(#[trigger] self.paths.items()[j])),
                    ),
            decreases self.paths.items().len() - i,
        {
            let denied = self.paths.item_at(i);
            if path_starts_with(written.as_bytes(), denied.as_bytes()) {
                proof {
                    assert(self.paths.items().contains(denied@));
                    assert(self@.paths.contains(denied@));
                }
                return true;
            }
            i = i + 1;
        }
        proof {
            assert forall|denied: Seq<char>| #[trigger] self@.paths.contains(denied) implies !path::starts_with(
                path::parts(vstd::utf8::encode_utf8(written@)),
                path::parts(vstd::utf8::encode_utf8(denied)),
            ) by {
                assert(self.paths.items().contains(denied));
                let j = choose|j: int| 0 <= j < self.paths.items().len() && self.paths.items()[j] == denied;
            }
        }
        false
    }

    /// Whether a file is denied by its identity, whatever name led to it.
    pub fn is_id_denied(&self, id: &FileId) -> (result: bool)
        requires
            self.wf(),
        ensures
            result == self@.ids.contains(id@),
    {
        let bytes = write_id(id);
        self.ids.contains(bytes.as_slice())
    }

    /// Whether nothing is denied.
    pub fn is_empty(&self) -> (empty: bool)
        requires
            self.wf(),
        ensures
            empty == (self@ == nothing_denied()),
    {
        let empty = self.paths.is_empty() && self.ids.is_empty();
        proof {
            if empty {
                assert(self@ =~= nothing_denied());
            } else if self.paths@ == Set::<Seq<char>>::empty() {
                if forall|bytes: Seq<u8>| !self.ids@.contains(bytes) {
                    assert(self.ids@ =~= Set::<Seq<u8>>::empty());
                }
                let bytes = choose|bytes: Seq<u8>| self.ids@.contains(bytes);
                let id = choose|id: FileIdView| #[trigger] id_image(id) == bytes;
                assert(self@.ids.contains(id));
                assert(!nothing_denied().ids.contains(id));
            }
        }
        empty
    }

    /// The denied paths, in the order of their bytes, each once.
    pub fn denied_paths(&self) -> (list: Vec<String>)
        requires
            self.wf(),
        ensures
            text::string_views(list@).to_set() == self@.paths,
            byte_set::bytes_in_order(text_set::encoded(text::string_views(list@))),
    {
        self.paths.to_list()
    }
}

/// A path that is denied is denied with everything below it, and the file that it
/// names is denied by its identity, until it is allowed again.
pub proof fn law_denied_files_stay_denied(
    denied: DeniedView,
    written: Seq<char>,
    below: Seq<char>,
    id: FileIdView,
    other: Seq<char>,
    other_id: Option<FileIdView>,
)
    requires
        path::starts_with(
            path::parts(vstd::utf8::encode_utf8(below)),
            path::parts(vstd::utf8::encode_utf8(written)),
        ),
    ensures
        ({
            let after = after_deny(denied, written, Some(id));
            let later = after_deny(after, other, other_id);
            &&& path_is_denied(after.paths, below)
            &&& after.ids.contains(id)
            &&& path_is_denied(later.paths, below)
            &&& later.ids.contains(id)
        }),
{
    let after = after_deny(denied, written, Some(id));
    let later = after_deny(after, other, other_id);
    assert(after.paths.contains(written));
    assert(later.paths.contains(written));
}

/// Allowing undoes denying, where neither the path nor the file was denied before.
pub proof fn law_allow_undoes_deny(denied: DeniedView, written: Seq<char>, id: Option<FileIdView>)
    requires
        !denied.paths.contains(written),
        id matches Some(known) ==> !denied.ids.contains(known),
    ensures
        after_allow(after_deny(denied, written, id), written, id) == denied,
{
    assert(after_allow(after_deny(denied, written, id), written, id) =~= denied);
}

/// What the policy that is decided while a command runs holds.
#[derive(Debug)]
pub struct PolicyFnState {
    /// The live policy, where there is one.
    pub live_policy: Option<LivePolicy>,
    pub denied: DeniedSet,
}

impl PolicyFnState {
    /// No live policy, and nothing denied.
    pub fn new() -> (state: PolicyFnState)
        ensures
            state.live_policy is None,
            state.denied.wf(),
            state.denied@ == nothing_denied(),
    {
        PolicyFnState { live_policy: None, denied: DeniedSet::default() }
    }

    /// Whether a path lies at or below a denied one.
    pub fn is_path_denied(&self, written: &str) -> (result: bool)
        ensures
            result == path_is_denied(self.denied@.paths, written@),
    {
        self.denied.is_path_denied(written)
    }

    /// Whether a file is denied by its identity.
    pub fn is_id_denied(&self, id: &FileId) -> (result: bool)
        requires
            self.denied.wf(),
        ensures
            result == self.denied@.ids.contains(id@),
    {
        self.denied.is_id_denied(id)
    }

    /// Whether anything is denied.
    pub fn has_denied_paths(&self) -> (result: bool)
        requires
            self.denied.wf(),
        ensures
            result == (self.denied@ != nothing_denied()),
    {
        !self.denied.is_empty()
    }
}

/// A path is denied exactly where it, or a directory that it leads through, was denied:
/// what was denied covers itself and all that begins with its parts, and nothing that does
/// not.
pub proof fn law_denials_cover_what_is_below(paths: Set<Seq<char>>, denied: Seq<char>, written: Seq<char>)
    requires
        paths == set![denied],
    ensures
        ({
            let way = path::parts(vstd::utf8::encode_utf8(written));
            let root = path::parts(vstd::utf8::encode_utf8(denied));
            path_is_denied(paths, written) <==> root.len() <= way.len() && way.take(root.len() as int) == root
        }),
        path_is_denied(paths, denied),
        !path_is_denied(Set::empty(), written),
{
    let root = path::parts(vstd::utf8::encode_utf8(denied));
    assert(paths.contains(denied));
    assert(root.take(root.len() as int) =~= root);
}

/// Denying and allowing change what they name and nothing else.
pub proof fn law_denials_change_what_they_name(
    denied: DeniedView,
    written: Seq<char>,
    id: Option<FileIdView>,
    other: Seq<char>,
    other_id: FileIdView,
)
    requires
        other != written,
        id != Some(other_id),
    ensures
        after_deny(denied, written, id).paths.contains(written),
        after_deny(denied, written, id).paths.contains(other) == denied.paths.contains(other),
        after_deny(denied, written, id).ids.contains(other_id) == denied.ids.contains(other_id),
        id matches Some(known) ==> after_deny(denied, written, id).ids.contains(known) && !after_allow(
            denied,
            written,
            id,
        ).ids.contains(known),
        !after_allow(denied, written, id).paths.contains(written),
        after_allow(denied, written, id).paths.contains(other) == denied.paths.contains(other),
        after_allow(denied, written, id).ids.contains(other_id) == denied.ids.contains(other_id),
{
}

} // verus!
