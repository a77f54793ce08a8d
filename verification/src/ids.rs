//! Identifiers: UUIDs in their canonical form.

use crate::text::same_text;
use vstd::prelude::*;

verus! {

/// The lower-case hexadecimal digit of a number below sixteen.
pub open spec fn hex_digit(value: int) -> char {
    if value < 10 {
        (0x30 + value) as char
    } else {
        (0x61 + value - 10) as char
    }
}

/// The first bytes of a UUID in canonical form: two digits for each byte, a
/// hyphen after the fourth, sixth, eighth and tenth.
pub open spec fn hyphenated(bytes: Seq<u8>) -> Seq<char>
    decreases bytes.len(),
{
    if bytes.len() == 0 {
        Seq::empty()
    } else {
        let count = bytes.len() - 1;
        let before = hyphenated(bytes.drop_last());
        let start = if count == 4 || count == 6 || count == 8 || count == 10 {
            before.push('-')
        } else {
            before
        };
        start.push(hex_digit(bytes.last() as int / 16)).push(hex_digit(bytes.last() as int % 16))
    }
}

/// The bytes that a text stands for as a UUID, in any of the forms that UUIDs
/// are written in.
pub uninterp spec fn uuid_bytes(text: Seq<char>) -> Option<Seq<u8>>;

/// Calls `uuid::Uuid::parse_str`. Claimed of it: the bytes of the UUID, and
/// whether there is one, are a function of the text.
#[verifier::external_body]
fn parse_uuid(text: &str) -> (bytes: Option<[u8; 16]>)
    ensures
        match bytes {
            Some(read) => uuid_bytes(text@) == Some(read@),
            None => uuid_bytes(text@) is None,
        },
{
    uuid::Uuid::parse_str(text).ok().map(uuid::Uuid::into_bytes)
}

/// Calls `to_string` of `uuid::Uuid`. Claimed of it: the text is the canonical
/// form of the bytes, and parsing it gives the bytes back.
#[verifier::external_body]
fn uuid_text(bytes: [u8; 16]) -> (text: String)
    ensures
        text@ == hyphenated(bytes@),
        uuid_bytes(text@) == Some(bytes@),
{
    uuid::Uuid::from_bytes(bytes).to_string()
}

/// What a text is as an identifier.
#[derive(Clone, Copy, Debug, PartialEq, Eq, Structural)]
pub enum IdForm {
    /// No UUID.
    Invalid,
    /// A UUID in another form.
    NotCanonical,
    /// A UUID in its canonical form.
    Canonical,
}

/// Whether a text is the canonical form of some sixteen bytes.
pub open spec fn is_canonical(text: Seq<char>) -> bool {
    uuid_bytes(text) matches Some(bytes) && text == hyphenated(bytes)
}

/// Tells what a text is as an identifier.
pub fn id_form(text: &str) -> (form: IdForm)
    ensures
        form == if uuid_bytes(text@) is None {
            IdForm::Invalid
        } else if is_canonical(text@) {
            IdForm::Canonical
        } else {
            IdForm::NotCanonical
        },
{
    match parse_uuid(text) {
        None => IdForm::Invalid,
        Some(bytes) => {
            let canonical = uuid_text(bytes);
            if same_text(canonical.as_str(), text) {
                IdForm::Canonical
            } else {
                IdForm::NotCanonical
            }
        },
    }
}

/// The canonical form of sixteen bytes, which is an identifier.
pub fn canonical_id(bytes: [u8; 16]) -> (id: String)
    ensures
        id@ == hyphenated(bytes@),
        is_canonical(id@),
{
    uuid_text(bytes)
}

/// Two canonical identifiers of the same bytes are the same text.
pub proof fn law_canonical_ids_are_unique(a: Seq<char>, b: Seq<char>)
    requires
        is_canonical(a),
        is_canonical(b),
        uuid_bytes(a) == uuid_bytes(b),
    ensures
        a == b,
{
}

proof fn lemma_hyphenated_from(bytes: Seq<u8>)
    ensures
        hyphenated(bytes).len() == 2 * bytes.len() + hyphens(bytes.len() as int),
    decreases bytes.len(),
{
    if bytes.len() > 0 {
        lemma_hyphenated_from(bytes.drop_last());
    }
}

/// How many hyphens stand in the text of so many bytes.
pub open spec fn hyphens(count: int) -> int {
    if count > 10 {
        4
    } else if count > 8 {
        3
    } else if count > 6 {
        2
    } else if count > 4 {
        1
    } else {
        0
    }
}

/// The text of an identity: thirty-six characters, two digits for each byte, the higher half
/// first, behind a hyphen where a group begins.
pub proof fn law_identities_are_written_in_groups(bytes: Seq<u8>, last: u8)
    ensures
        bytes.len() == 16 ==> hyphenated(bytes).len() == 36,
        ({
            let more = hyphenated(bytes.push(last));
            let n = more.len() as int;
            let before = hyphenated(bytes).len() as int;
            let begins = bytes.len() == 4 || bytes.len() == 6 || bytes.len() == 8 || bytes.len() == 10;
            &&& more.take(before) == hyphenated(bytes)
            &&& n == before + if begins {
                3int
            } else {
                2int
            }
            &&& begins ==> more[before] == '-'
            &&& more[n - 2] == hex_digit(last as int / 16)
            &&& more[n - 1] == hex_digit(last as int % 16)
        }),
        forall|d: int| 0 <= d < 10 ==> #[trigger] hex_digit(d) == (0x30 + d) as char,
        forall|d: int| 10 <= d < 16 ==> #[trigger] hex_digit(d) == (0x61 + d - 10) as char,
{
    lemma_hyphenated_from(bytes);
    lemma_hyphenated_from(bytes.push(last));
    assert(bytes.push(last).drop_last() =~= bytes);
    let more = hyphenated(bytes.push(last));
    assert(more.take(hyphenated(bytes).len() as int) =~= hyphenated(bytes));
}

} // verus!
