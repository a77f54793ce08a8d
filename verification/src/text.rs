//! Text as sequences of characters.

use vstd::prelude::*;

verus! {

/// Specifies `String::push`: the character comes last.
pub assume_specification[ String::push ](string: &mut String, character: char)
    ensures
        final(string)@ == old(string)@.push(character),
;

/// The characters of a text.
pub fn chars_of(text: &str) -> (chars: Vec<char>)
    ensures
        chars@ == text@,
{
    let mut chars: Vec<char> = Vec::new();
    for character in iter: text.chars()
        invariant
            iter.seq() == text@,
            chars@ == text@.take(iter.index() as int),
    {
        chars.push(character);
        proof {
            assert(text@.take(iter.index() as int + 1) =~= text@.take(iter.index() as int).push(
                text@[iter.index() as int],
            ));
        }
    }
    proof {
        assert(text@.take(text@.len() as int) =~= text@);
    }
    chars
}

/// The text of some characters.
pub fn string_of(chars: &Vec<char>) -> (text: String)
    ensures
        text@ == chars@,
{
    let mut text = String::new();
    let mut i: usize = 0;
    proof {
        assert(text@ =~= chars@.take(0));
    }
    while i < chars.len()
        invariant
            i <= chars@.len(),
            text@ == chars@.take(i as int),
        decreases chars@.len() - i,
    {
        text.push(chars[i]);
        proof {
            assert(chars@.take(i as int + 1) =~= chars@.take(i as int).push(chars@[i as int]));
        }
        i = i + 1;
    }
    proof {
        assert(chars@.take(i as int) =~= chars@);
    }
    text
}

/// Whether two texts are the same.
pub fn same_text(a: &str, b: &str) -> (same: bool)
    ensures
        same == (a@ == b@),
{
    let left = a.to_owned();
    let right = b.to_owned();
    left == right
}

/// The same text again.
pub fn copy_text(text: &str) -> (copy: String)
    ensures
        copy@ == text@,
{
    text.to_owned()
}

/// Calls `std::str::from_utf8`, which accepts exactly the bytes that encode text.
#[verifier::external_body]
pub(crate) fn is_text(bytes: &[u8]) -> (valid: bool)
    ensures
        valid == vstd::utf8::valid_utf8(bytes@),
{
    std::str::from_utf8(bytes).is_ok()
}

/// What `String::from_utf8_lossy` makes of bytes.
pub uninterp spec fn lossy_text(bytes: Seq<u8>) -> Seq<u8>;

/// Calls `String::from_utf8_lossy`, which gives text for any bytes: it keeps text as it is,
/// and puts replacement characters where bytes encode none.
#[verifier::external_body]
pub(crate) fn lossy(bytes: &[u8]) -> (text: Vec<u8>)
    ensures
        text@ == lossy_text(bytes@),
        vstd::utf8::valid_utf8(text@),
        vstd::utf8::valid_utf8(bytes@) ==> text@ == bytes@,
{
    String::from_utf8_lossy(bytes).into_owned().into_bytes()
}

/// The value of a digit, where the base has it. Letters go on behind nine.
pub open spec fn digit_value(byte: u8, radix: int) -> Option<int> {
    let value = if 0x30 <= byte && byte <= 0x39 {
        byte - 0x30
    } else if 0x61 <= byte && byte <= 0x7a {
        byte - 0x61 + 10
    } else if 0x41 <= byte && byte <= 0x5a {
        byte - 0x41 + 10
    } else {
        radix
    };
    if value < radix {
        Some(value)
    } else {
        None
    }
}

/// The number that digits of a base write.
pub open spec fn digits(bytes: Seq<u8>, radix: int) -> Option<int>
    decreases bytes.len(),
{
    if bytes.len() == 0 {
        Some(0)
    } else {
        match (digits(bytes.drop_last(), radix), digit_value(bytes.last(), radix)) {
            (Some(value), Some(digit)) => Some(radix * value + digit),
            _ => None,
        }
    }
}

/// The number that is written: digits, where a `+` may lead.
pub open spec fn unsigned(bytes: Seq<u8>, radix: int) -> Option<int> {
    if bytes.len() == 0 {
        None
    } else if bytes[0] == 0x2b {
        if bytes.len() == 1 {
            None
        } else {
            digits(bytes.skip(1), radix)
        }
    } else {
        digits(bytes, radix)
    }
}

/// The number that is written base ten, where a sign may lead.
pub open spec fn signed(bytes: Seq<u8>) -> Option<int> {
    if bytes.len() > 1 && bytes[0] == 0x2d {
        match digits(bytes.skip(1), 10) {
            Some(value) => Some(-value),
            None => None,
        }
    } else {
        unsigned(bytes, 10)
    }
}

proof fn lemma_digits_grow(bytes: Seq<u8>, few: int, radix: int)
    requires
        0 <= few <= bytes.len(),
        radix >= 1,
    ensures
        digits(bytes.take(few), radix) matches Some(low) ==> low >= 0 && (digits(bytes, radix) matches Some(
            high,
        ) ==> low <= high),
        digits(bytes.take(few), radix) is None ==> digits(bytes, radix) is None,
    decreases bytes.len(),
{
    if bytes.len() > 0 {
        let last: int = if few < bytes.len() {
            few
        } else {
            bytes.len() - 1
        };
        lemma_digits_grow(bytes.drop_last(), last, radix);
        lemma_digits_grow(bytes.drop_last(), bytes.len() - 1, radix);
        assert(bytes.drop_last().take(last) =~= bytes.take(last));
        assert(bytes.drop_last().take(bytes.len() - 1) =~= bytes.drop_last());
        match digits(bytes.drop_last(), radix) {
            Some(value) => {
                assert(value <= radix * value) by (nonlinear_arith)
                    requires
                        value >= 0,
                        radix >= 1,
                ;
            },
            None => {},
        }
    }
    if few == bytes.len() {
        assert(bytes.take(few) =~= bytes);
    }
}

/// The value of a digit.
fn read_digit(byte: u8, radix: u64) -> (value: Option<u64>)
    requires
        radix <= 36,
    ensures
        match value {
            Some(digit) => digit_value(byte, radix as int) == Some(digit as int),
            None => digit_value(byte, radix as int) is None,
        },
{
    let value: u64 = if 0x30 <= byte && byte <= 0x39 {
        (byte - 0x30) as u64
    } else if 0x61 <= byte && byte <= 0x7a {
        (byte - 0x61) as u64 + 10
    } else if 0x41 <= byte && byte <= 0x5a {
        (byte - 0x41) as u64 + 10
    } else {
        radix
    };
    if value < radix {
        Some(value)
    } else {
        None
    }
}

/// Reads digits from a place on, where the number is at most `max`.
fn read_digits(bytes: &[u8], from: usize, radix: u64, max: u64) -> (result: Option<u64>)
    requires
        from <= bytes@.len(),
        1 <= radix <= 36,
    ensures
        match result {
            Some(value) => digits(bytes@.skip(from as int), radix as int) == Some(value as int) && value <= max,
            None => match digits(bytes@.skip(from as int), radix as int) {
                Some(value) => value > max,
                None => true,
            },
        },
{
    let ghost all = bytes@.skip(from as int);
    let mut value: u64 = 0;
    let mut i: usize = from;
    proof {
        assert(all.take(0) =~= Seq::<u8>::empty());
    }
    while i < bytes.len()
        invariant
            from <= i <= bytes@.len(),
            1 <= radix <= 36,
            all == bytes@.skip(from as int),
            digits(all.take(i - from), radix as int) == Some(value as int),
            value <= max,
        decreases bytes@.len() - i,
    {
        let byte = bytes[i];
        proof {
            assert(all.take(i - from + 1).drop_last() =~= all.take(i - from));
            assert(all.take(i - from + 1).last() == byte);
            lemma_digits_grow(all, i - from + 1, radix as int);
            assert(0 <= radix * value <= 36 * 0xffff_ffff_ffff_ffff) by (nonlinear_arith)
                requires
                    0 <= radix <= 36,
                    0 <= value <= 0xffff_ffff_ffff_ffff,
            ;
        }
        match read_digit(byte, radix) {
            None => {
                return None;
            },
            Some(digit) => {
                let next: u128 = radix as u128 * value as u128 + digit as u128;
                if next > max as u128 {
                    return None;
                }
                value = next as u64;
            },
        }
        i = i + 1;
    }
    proof {
        assert(all.take(i - from) =~= all);
    }
    Some(value)
}

/// Reads a number of at most `max` in a base.
pub fn parse_unsigned(bytes: &[u8], radix: u64, max: u64) -> (result: Option<u64>)
    requires
        1 <= radix <= 36,
    ensures
        match result {
            Some(value) => unsigned(bytes@, radix as int) == Some(value as int) && value <= max,
            None => match unsigned(bytes@, radix as int) {
                Some(value) => value > max,
                None => true,
            },
        },
{
    if bytes.len() == 0 {
        return None;
    }
    if bytes[0] == 0x2b {
        if bytes.len() == 1 {
            return None;
        }
        return read_digits(bytes, 1, radix, max);
    }
    proof {
        assert(bytes@.skip(0) =~= bytes@);
    }
    read_digits(bytes, 0, radix, max)
}

/// Reads a number that fits 32 bits, with or without a sign.
pub fn parse_i32(bytes: &[u8]) -> (result: Option<i32>)
    ensures
        match result {
            Some(value) => signed(bytes@) == Some(value as int),
            None => match signed(bytes@) {
                Some(value) => value < i32::MIN || value > i32::MAX,
                None => true,
            },
        },
{
    if bytes.len() > 1 && bytes[0] == 0x2d {
        proof {
            lemma_digits_grow(bytes@.skip(1), 0, 10);
            assert(bytes@.skip(1).take(0) =~= Seq::<u8>::empty());
        }
        return match read_digits(bytes, 1, 10, 0x8000_0000) {
            Some(value) => {
                let negative: i64 = -(value as i64);
                Some(negative as i32)
            },
            None => None,
        };
    }
    proof {
        if bytes@.len() > 0 {
            lemma_digits_grow(bytes@, 0, 10);
            assert(bytes@.take(0) =~= Seq::<u8>::empty());
            lemma_digits_grow(bytes@.skip(1), 0, 10);
            assert(bytes@.skip(1).take(0) =~= Seq::<u8>::empty());
        }
    }
    match parse_unsigned(bytes, 10, 0x7fff_ffff) {
        Some(value) => Some(value as i32),
        None => None,
    }
}

/// Whether a character is white space: those that Unicode marks so.
pub open spec fn is_white(c: char) -> bool {
    let code = c as u32;
    ||| 0x09 <= code <= 0x0d
    ||| code == 0x20
    ||| code == 0x85
    ||| code == 0xa0
    ||| code == 0x1680
    ||| 0x2000 <= code <= 0x200a
    ||| code == 0x2028
    ||| code == 0x2029
    ||| code == 0x202f
    ||| code == 0x205f
    ||| code == 0x3000
}

/// Whether a character is white space.
pub fn is_whitespace(c: char) -> (white: bool)
    ensures
        white == is_white(c),
{
    let code: u32 = c as u32;
    (0x09 <= code && code <= 0x0d) || code == 0x20 || code == 0x85 || code == 0xa0 || code == 0x1680 || (0x2000 <= code
        && code <= 0x200a) || code == 0x2028 || code == 0x2029 || code == 0x202f || code == 0x205f || code == 0x3000
}

/// The end of a word: the first white space from a place on.
pub open spec fn word_end(chars: Seq<char>, from: int) -> int
    decreases chars.len() - from,
{
    if from < 0 || from >= chars.len() || is_white(chars[from]) {
        from
    } else {
        word_end(chars, from + 1)
    }
}

/// The words of a text from a place on: what stands between white space.
pub open spec fn words_from(chars: Seq<char>, from: int) -> Seq<Seq<char>>
    decreases chars.len() - from,
{
    if from < 0 || from >= chars.len() {
        Seq::empty()
    } else if is_white(chars[from]) {
        words_from(chars, from + 1)
    } else {
        let end = word_end(chars, from);
        if from < end <= chars.len() {
            seq![chars.subrange(from, end)] + words_from(chars, end)
        } else {
            Seq::empty()
        }
    }
}

/// The words of a text.
pub open spec fn words(chars: Seq<char>) -> Seq<Seq<char>> {
    words_from(chars, 0)
}

/// What strings say.
pub open spec fn string_views(strings: Seq<String>) -> Seq<Seq<char>> {
    Seq::new(strings.len(), |i: int| strings[i]@)
}

/// The characters from a place to another, as a string.
pub fn part_of(chars: &Vec<char>, from: usize, to: usize) -> (part: String)
    requires
        from <= to <= chars@.len(),
    ensures
        part@ == chars@.subrange(from as int, to as int),
{
    let mut piece: Vec<char> = Vec::new();
    let mut i: usize = from;
    while i < to
        invariant
            from <= i <= to <= chars@.len(),
            piece@ == chars@.subrange(from as int, i as int),
        decreases to - i,
    {
        piece.push(chars[i]);
        proof {
            assert(chars@.subrange(from as int, i + 1) =~= chars@.subrange(from as int, i as int).push(chars@[i as int]));
        }
        i = i + 1;
    }
    string_of(&piece)
}

/// Splits a text into its words, from a place on.
pub fn split_words_from(chars: &Vec<char>, from: usize) -> (result: Vec<String>)
    requires
        from <= chars@.len(),
    ensures
        string_views(result@) == words_from(chars@, from as int),
{
    let mut result: Vec<String> = Vec::new();
    let mut i: usize = from;
    proof {
        assert(string_views(result@) =~= Seq::<Seq<char>>::empty());
        assert(string_views(result@) + words_from(chars@, i as int) =~= words_from(chars@, from as int));
    }
    while i < chars.len()
        invariant
            from <= i <= chars@.len(),
            words_from(chars@, from as int) == string_views(result@) + words_from(chars@, i as int),
        decreases chars@.len() - i,
    {
        if is_whitespace(chars[i]) {
            i = i + 1;
        } else {
            let start: usize = i;
            proof {
                assert(word_end(chars@, start as int) == word_end(chars@, start + 1));
            }
            i = i + 1;
            while i < chars.len() && !is_whitespace(chars[i])
                invariant
                    start < i <= chars@.len(),
                    word_end(chars@, start as int) == word_end(chars@, i as int),
                decreases chars@.len() - i,
            {
                i = i + 1;
            }
            let word = part_of(chars, start, i);
            let ghost before = string_views(result@);
            let ghost added = word@;
            result.push(word);
            proof {
                assert(string_views(result@) =~= before.push(added));
                assert(before + (seq![added] + words_from(chars@, i as int)) =~= before.push(added) + words_from(
                    chars@,
                    i as int,
                ));
            }
        }
    }
    proof {
        assert(words_from(chars@, i as int) =~= Seq::<Seq<char>>::empty());
        assert(string_views(result@) + Seq::<Seq<char>>::empty() =~= string_views(result@));
    }
    result
}

/// Splits a text into its words.
pub fn split_words(text: &str) -> (result: Vec<String>)
    ensures
        string_views(result@) == words(text@),
{
    let chars = chars_of(text);
    split_words_from(&chars, 0)
}

/// Whether a byte is white space of ASCII.
pub open spec fn is_blank(byte: u8) -> bool {
    byte == 0x20 || (0x09 <= byte && byte <= 0x0d)
}

/// Bytes without the white space around them.
pub open spec fn trimmed(bytes: Seq<u8>) -> Seq<u8>
    decreases bytes.len(),
{
    if bytes.len() == 0 {
        bytes
    } else if is_blank(bytes[0]) {
        trimmed(bytes.skip(1))
    } else if is_blank(bytes.last()) {
        trimmed(bytes.drop_last())
    } else {
        bytes
    }
}

proof fn lemma_trim_first(bytes: Seq<u8>)
    requires
        bytes.len() > 0,
        is_blank(bytes[0]),
    ensures
        trimmed(bytes) == trimmed(bytes.skip(1)),
{
}

proof fn lemma_trim_last(bytes: Seq<u8>)
    requires
        bytes.len() > 0,
        !is_blank(bytes[0]),
        is_blank(bytes.last()),
    ensures
        trimmed(bytes) == trimmed(bytes.drop_last()),
{
}

/// Bytes without the white space around them.
pub fn trim(bytes: &[u8]) -> (result: Vec<u8>)
    ensures
        result@ == trimmed(bytes@),
{
    let mut start: usize = 0;
    let mut end: usize = bytes.len();
    proof {
        assert(bytes@.subrange(0, end as int) =~= bytes@);
    }
    while start < end && (bytes[start] == 0x20 || (0x09 <= bytes[start] && bytes[start] <= 0x0d))
        invariant
            start <= end <= bytes@.len(),
            trimmed(bytes@) == trimmed(bytes@.subrange(start as int, end as int)),
        decreases end - start,
    {
        proof {
            let now = bytes@.subrange(start as int, end as int);
            lemma_trim_first(now);
            assert(now.skip(1) =~= bytes@.subrange(start + 1, end as int));
        }
        start = start + 1;
    }
    while start < end && (bytes[end - 1] == 0x20 || (0x09 <= bytes[end - 1] && bytes[end - 1] <= 0x0d))
        invariant
            start <= end <= bytes@.len(),
            start < end ==> !is_blank(bytes@[start as int]),
            trimmed(bytes@) == trimmed(bytes@.subrange(start as int, end as int)),
        decreases end - start,
    {
        proof {
            let now = bytes@.subrange(start as int, end as int);
            assert(now[0] == bytes@[start as int]);
            assert(now.last() == bytes@[end - 1]);
            lemma_trim_last(now);
            assert(now.drop_last() =~= bytes@.subrange(start as int, end - 1));
        }
        end = end - 1;
    }
    vstd::slice::slice_to_vec(vstd::slice::slice_subrange(bytes, start, end))
}

/// The place of a byte from a place on; the end where there is none.
pub open spec fn find_byte(bytes: Seq<u8>, byte: u8, from: int) -> int
    decreases bytes.len() - from,
{
    if from >= bytes.len() || from < 0 {
        bytes.len() as int
    } else if bytes[from] == byte {
        from
    } else {
        find_byte(bytes, byte, from + 1)
    }
}

pub proof fn lemma_find_byte(bytes: Seq<u8>, byte: u8, from: int, end: int)
    requires
        0 <= from <= end <= bytes.len(),
        forall|i: int| from <= i < end ==> bytes[i] != byte,
        end == bytes.len() || bytes[end] == byte,
    ensures
        find_byte(bytes, byte, from) == end,
    decreases end - from,
{
    if from < end {
        lemma_find_byte(bytes, byte, from + 1, end);
    }
}

/// The place of a byte from a place on; the end where there is none.
pub fn position_of(bytes: &[u8], byte: u8, from: usize) -> (place: usize)
    requires
        from <= bytes@.len(),
    ensures
        place == find_byte(bytes@, byte, from as int),
        from <= place <= bytes@.len(),
        place < bytes@.len() ==> bytes@[place as int] == byte,
        forall|i: int| from <= i < place ==> bytes@[i] != byte,
{
    let mut end: usize = from;
    while end < bytes.len() && bytes[end] != byte
        invariant
            from <= end <= bytes@.len(),
            forall|i: int| from <= i < end ==> bytes@[i] != byte,
        decreases bytes@.len() - end,
    {
        end = end + 1;
    }
    proof {
        lemma_find_byte(bytes@, byte, from as int, end as int);
    }
    end
}

/// What stands behind a prefix on the first line that starts with it, looking
/// from the start of a line on.
pub open spec fn line_behind(bytes: Seq<u8>, prefix: Seq<u8>, from: int) -> Option<Seq<u8>>
    decreases bytes.len() - from,
{
    if from < 0 || from > bytes.len() {
        None
    } else {
        let end = find_byte(bytes, 0x0a, from);
        if end < from {
            None
        } else if end - from >= prefix.len() && bytes.subrange(from, from + prefix.len()) == prefix {
            Some(bytes.subrange(from + prefix.len(), end))
        } else if end >= bytes.len() {
            None
        } else {
            line_behind(bytes, prefix, end + 1)
        }
    }
}

/// What stands behind a prefix on the first line that starts with it.
pub fn find_line(bytes: &[u8], prefix: &[u8]) -> (result: Option<Vec<u8>>)
    ensures
        match result {
            Some(rest) => line_behind(bytes@, prefix@, 0) == Some(rest@),
            None => line_behind(bytes@, prefix@, 0) is None,
        },
{
    let mut from: usize = 0;
    loop
        invariant
            from <= bytes@.len(),
            line_behind(bytes@, prefix@, 0) == line_behind(bytes@, prefix@, from as int),
        decreases bytes@.len() - from,
    {
        let end = position_of(bytes, 0x0a, from);
        if end - from >= prefix.len() {
            let start = vstd::slice::slice_subrange(bytes, from, from + prefix.len());
            if crate::path::bytes_equal(start, prefix) {
                let rest = vstd::slice::slice_subrange(bytes, from + prefix.len(), end);
                return Some(vstd::slice::slice_to_vec(rest));
            }
        }
        if end >= bytes.len() {
            return None;
        }
        from = end + 1;
    }
}

/// Whether bytes start with others.
pub open spec fn begins_with(bytes: Seq<u8>, prefix: Seq<u8>) -> bool {
    prefix.len() <= bytes.len() && bytes.take(prefix.len() as int) == prefix
}

/// Whether bytes start with others.
pub fn has_prefix(bytes: &[u8], prefix: &[u8]) -> (result: bool)
    ensures
        result == begins_with(bytes@, prefix@),
{
    if prefix.len() > bytes.len() {
        return false;
    }
    let start = vstd::slice::slice_subrange(bytes, 0, prefix.len());
    proof {
        assert(bytes@.subrange(0, prefix@.len() as int) =~= bytes@.take(prefix@.len() as int));
    }
    crate::path::bytes_equal(start, prefix)
}

/// The digits of a number, base ten, without leading zeros.
pub open spec fn decimal_digits(value: int) -> Seq<u8>
    decreases value,
{
    if value < 10 {
        seq![(0x30 + value) as u8]
    } else {
        decimal_digits(value / 10).push((0x30 + value % 10) as u8)
    }
}

/// Writes a number, base ten.
pub fn decimal(value: u64) -> (bytes: Vec<u8>)
    ensures
        bytes@ == decimal_digits(value as int),
    decreases value,
{
    if value < 10 {
        let bytes: Vec<u8> = vec![0x30 + value as u8];
        proof {
            assert(bytes@ =~= decimal_digits(value as int));
        }
        bytes
    } else {
        let mut bytes = decimal(value / 10);
        bytes.push(0x30 + (value % 10) as u8);
        bytes
    }
}

/// A written number reads back as itself.
pub proof fn law_decimal_reads_back(value: int)
    requires
        value >= 0,
    ensures
        digits(decimal_digits(value), 10) == Some(value),
        decimal_digits(value).len() > 0,
        0x30 <= decimal_digits(value)[0] <= 0x39,
        unsigned(decimal_digits(value), 10) == Some(value),
    decreases value,
{
    let written = decimal_digits(value);
    if value < 10 {
        assert(written.drop_last() =~= Seq::<u8>::empty());
        assert(digits(written.drop_last(), 10) == Some(0int));
        assert(written.last() == 0x30 + value);
    } else {
        law_decimal_reads_back(value / 10);
        assert(written.drop_last() =~= decimal_digits(value / 10));
        assert(written[0] == decimal_digits(value / 10)[0]);
        assert(written.last() == 0x30 + value % 10);
    }
}

/// The digits of a number with its sign.
pub open spec fn signed_digits(value: int) -> Seq<u8> {
    if value < 0 {
        seq![0x2du8] + decimal_digits(-value)
    } else {
        decimal_digits(value)
    }
}

/// Writes a number with its sign.
pub fn signed_decimal(value: i32) -> (bytes: Vec<u8>)
    ensures
        bytes@ == signed_digits(value as int),
{
    if value < 0 {
        let size: i64 = -(value as i64);
        let mut bytes: Vec<u8> = vec![0x2d];
        let rest = decimal(size as u64);
        crate::path::append_bytes(&mut bytes, rest.as_slice());
        proof {
            assert(bytes@ =~= signed_digits(value as int));
        }
        bytes
    } else {
        decimal(value as u64)
    }
}

/// The character of a digit.
pub open spec fn digit_char(digit: int) -> char {
    (0x30 + digit) as char
}

/// The text of a number, base ten.
pub open spec fn decimal_text(value: int) -> Seq<char>
    decreases value,
{
    if value < 10 {
        seq![digit_char(value)]
    } else {
        decimal_text(value / 10).push(digit_char(value % 10))
    }
}

/// Appends the text of a number to some characters.
pub fn append_decimal(chars: &mut Vec<char>, value: u32)
    ensures
        final(chars)@ == old(chars)@ + decimal_text(value as int),
    decreases value,
{
    let digit: u32 = value % 10;
    let ghost before = chars@;
    if value >= 10 {
        append_decimal(chars, value / 10);
    }
    let character = match digit {
        0 => '0',
        1 => '1',
        2 => '2',
        3 => '3',
        4 => '4',
        5 => '5',
        6 => '6',
        7 => '7',
        8 => '8',
        _ => '9',
    };
    chars.push(character);
    proof {
        assert(character == digit_char(digit as int));
        assert(chars@ =~= before + decimal_text(value as int));
    }
}

/// Appends a text to some characters.
pub fn append_text(chars: &mut Vec<char>, text: &str)
    ensures
        final(chars)@ == old(chars)@ + text@,
{
    let mut added = chars_of(text);
    chars.append(&mut added);
}

proof fn lemma_digits_are_ascii(value: int)
    requires
        value >= 0,
    ensures
        forall|i: int| 0 <= i < decimal_digits(value).len() ==> 0x30 <= #[trigger] decimal_digits(value)[i] <= 0x39,
    decreases value,
{
    let written = decimal_digits(value);
    if value >= 10 {
        let before = decimal_digits(value / 10);
        lemma_digits_are_ascii(value / 10);
        assert(written == before.push((0x30 + value % 10) as u8));
        assert forall|i: int| 0 <= i < written.len() implies 0x30 <= #[trigger] written[i] <= 0x39 by {
            if i < before.len() {
                assert(written[i] == before[i]);
            }
        }
    } else {
        assert(written == seq![(0x30 + value) as u8]);
    }
}

/// A number that was written with its sign reads back as itself, and is text.
pub proof fn law_signed_reads_back(value: int)
    ensures
        signed(signed_digits(value)) == Some(value),
        vstd::utf8::valid_utf8(signed_digits(value)),
{
    let written = signed_digits(value);
    let size = if value < 0 {
        -value
    } else {
        value
    };
    law_decimal_reads_back(size);
    lemma_digits_are_ascii(size);
    if value < 0 {
        assert(written.skip(1) =~= decimal_digits(size));
    }
    assert forall|i: int| 0 <= i < written.len() implies #[trigger] written[i] < 0x80 by {
        if value < 0 && i > 0 {
            assert(written[i] == decimal_digits(size)[i - 1]);
        }
    }
    lemma_ascii_is_text(written);
}

/// Bytes of ASCII are text.
pub proof fn lemma_ascii_is_text(bytes: Seq<u8>)
    requires
        forall|i: int| 0 <= i < bytes.len() ==> #[trigger] bytes[i] < 0x80,
    ensures
        vstd::utf8::valid_utf8(bytes),
{
    let chars = Seq::new(bytes.len(), |i: int| bytes[i] as char);
    assert(vstd::utf8::is_ascii_chars(chars)) by {
        assert forall|i: int| 0 <= i < chars.len() implies '\0' <= #[trigger] chars[i] <= '\u{7f}' by {
            assert(bytes[i] < 0x80);
        }
    }
    vstd::utf8::is_ascii_chars_encode_utf8(chars);
    assert(vstd::utf8::encode_utf8(chars) =~= bytes) by {
        assert forall|i: int| 0 <= i < bytes.len() implies #[trigger] vstd::utf8::encode_utf8(chars)[i] == bytes[i] by {
            assert(chars[i] as u8 == bytes[i]);
        }
    }
    vstd::utf8::encode_utf8_valid_utf8(chars);
}

/// Texts that differ differ as bytes.
pub proof fn lemma_texts_differ(a: Seq<char>, b: Seq<char>)
    requires
        a != b,
    ensures
        vstd::utf8::encode_utf8(a) != vstd::utf8::encode_utf8(b),
{
    vstd::utf8::encode_utf8_decode_utf8(a);
    vstd::utf8::encode_utf8_decode_utf8(b);
}

/// The end of a line: the first line feed from a place on.
pub open spec fn line_end(chars: Seq<char>, from: int) -> int
    decreases chars.len() - from,
{
    if from < 0 || from >= chars.len() || chars[from] == '\n' {
        from
    } else {
        line_end(chars, from + 1)
    }
}

/// A line without the carriage return that belongs to its line feed.
pub open spec fn bare_line(chars: Seq<char>, from: int, end: int) -> Seq<char> {
    if from < end < chars.len() && chars[end - 1] == '\r' {
        chars.subrange(from, end - 1)
    } else {
        chars.subrange(from, end)
    }
}

/// The lines of a text from a place on, without their ends.
pub open spec fn lines_from(chars: Seq<char>, from: int) -> Seq<Seq<char>>
    decreases chars.len() + 1 - from,
{
    if from < 0 || from >= chars.len() {
        Seq::empty()
    } else {
        let end = line_end(chars, from);
        if from <= end <= chars.len() {
            seq![bare_line(chars, from, end)] + lines_from(chars, end + 1)
        } else {
            Seq::empty()
        }
    }
}

/// The lines of a text, without their ends.
pub open spec fn lines(chars: Seq<char>) -> Seq<Seq<char>> {
    lines_from(chars, 0)
}

/// Splits a text into its lines.
pub fn split_lines(text: &str) -> (result: Vec<String>)
    ensures
        string_views(result@) == lines(text@),
{
    let chars = chars_of(text);
    let mut result: Vec<String> = Vec::new();
    let mut i: usize = 0;
    proof {
        assert(string_views(result@) =~= Seq::<Seq<char>>::empty());
        assert(string_views(result@) + lines_from(chars@, 0) =~= lines(text@));
    }
    while i < chars.len()
        invariant
            i <= chars@.len(),
            chars@ == text@,
            lines(text@) == string_views(result@) + lines_from(chars@, i as int),
        decreases chars@.len() - i,
    {
        let start: usize = i;
        while i < chars.len() && chars[i] != '\n'
            invariant
                start <= i <= chars@.len(),
                line_end(chars@, start as int) == line_end(chars@, i as int),
            decreases chars@.len() - i,
        {
            i = i + 1;
        }
        let mut end: usize = i;
        if start < i && i < chars.len() && chars[i - 1] == '\r' {
            end = i - 1;
        }
        let line = part_of(&chars, start, end);
        let ghost before = string_views(result@);
        let ghost added = line@;
        result.push(line);
        proof {
            assert(string_views(result@) =~= before.push(added));
            assert(before + (seq![added] + lines_from(chars@, i + 1)) =~= before.push(added) + lines_from(
                chars@,
                i + 1,
            ));
            if i >= chars@.len() {
                assert(lines_from(chars@, i + 1) =~= lines_from(chars@, i as int));
            }
        }
        if i < chars.len() {
            i = i + 1;
        }
    }
    proof {
        assert(lines_from(chars@, i as int) =~= Seq::<Seq<char>>::empty());
        assert(string_views(result@) + Seq::<Seq<char>>::empty() =~= string_views(result@));
    }
    result
}

/// Whether a text starts with another.
pub open spec fn text_starts(chars: Seq<char>, prefix: Seq<char>) -> bool {
    prefix.len() <= chars.len() && chars.take(prefix.len() as int) == prefix
}

/// What stands behind a text that another one starts with.
pub fn strip_text(chars: &str, prefix: &str) -> (rest: Option<String>)
    ensures
        match rest {
            Some(behind) => text_starts(chars@, prefix@) && behind@ == chars@.skip(prefix@.len() as int),
            None => !text_starts(chars@, prefix@),
        },
{
    let all = chars_of(chars);
    let start = chars_of(prefix);
    if all.len() < start.len() {
        return None;
    }
    let mut i: usize = 0;
    while i < start.len()
        invariant
            i <= start@.len() <= all@.len(),
            all@ == chars@,
            start@ == prefix@,
            forall|j: int| 0 <= j < i ==> all@[j] == #[trigger] start@[j],
        decreases start@.len() - i,
    {
        if all[i] != start[i] {
            proof {
                assert(chars@.take(prefix@.len() as int)[i as int] == all@[i as int]);
            }
            return None;
        }
        i = i + 1;
    }
    proof {
        assert(chars@.take(prefix@.len() as int) =~= prefix@);
        assert(all@.subrange(start@.len() as int, all@.len() as int) =~= chars@.skip(prefix@.len() as int));
    }
    Some(part_of(&all, start.len(), all.len()))
}

/// The last place from which on a pattern stands; below zero where it does not.
pub open spec fn last_match(chars: Seq<char>, pattern: Seq<char>, from: int) -> int
    decreases from + 1,
{
    if from < 0 {
        -1
    } else if from + pattern.len() <= chars.len() && chars.subrange(from, from + pattern.len()) == pattern {
        from
    } else {
        last_match(chars, pattern, from - 1)
    }
}

/// What stands behind the last place of a pattern.
pub open spec fn behind_last(chars: Seq<char>, pattern: Seq<char>) -> Option<Seq<char>> {
    let at = last_match(chars, pattern, chars.len() as int);
    if at < 0 {
        None
    } else {
        Some(chars.skip(at + pattern.len()))
    }
}

fn stands_at(chars: &Vec<char>, pattern: &Vec<char>, at: usize) -> (result: bool)
    requires
        at <= chars@.len(),
    ensures
        result == (at + pattern@.len() <= chars@.len() && chars@.subrange(at as int, at + pattern@.len()) == pattern@),
{
    if pattern.len() > chars.len() - at {
        return false;
    }
    let ghost window = chars@.subrange(at as int, at + pattern@.len());
    let total: usize = chars.len();
    let mut i: usize = 0;
    while i < pattern.len()
        invariant
            i <= pattern@.len(),
            at + pattern@.len() <= chars@.len() == total,
            window == chars@.subrange(at as int, at + pattern@.len()),
            forall|j: int| 0 <= j < i ==> #[trigger] window[j] == pattern@[j],
        decreases pattern@.len() - i,
    {
        if chars[at + i] != pattern[i] {
            proof {
                assert(window[i as int] == chars@[at + i]);
            }
            return false;
        }
        proof {
            assert(window[i as int] == chars@[at + i]);
        }
        i = i + 1;
    }
    proof {
        assert(window =~= pattern@);
    }
    true
}

/// What stands behind the last place of a pattern.
pub fn split_last(text: &str, pattern: &str) -> (rest: Option<String>)
    ensures
        match rest {
            Some(behind) => behind_last(text@, pattern@) == Some(behind@),
            None => behind_last(text@, pattern@) is None,
        },
{
    let chars = chars_of(text);
    let sought = chars_of(pattern);
    let total: usize = chars.len();
    let mut at: usize = total;
    loop
        invariant
            at <= chars@.len() == total,
            chars@ == text@,
            sought@ == pattern@,
            last_match(text@, pattern@, text@.len() as int) == last_match(text@, pattern@, at as int),
        decreases at,
    {
        if stands_at(&chars, &sought, at) {
            let from = at + sought.len();
            proof {
                assert(chars@.subrange(from as int, chars@.len() as int) =~= text@.skip(at + pattern@.len()));
            }
            return Some(part_of(&chars, from, chars.len()));
        }
        if at == 0 {
            proof {
                assert(last_match(text@, pattern@, -1) == -1);
            }
            return None;
        }
        at = at - 1;
    }
}

/// The number of 32 bits with a sign that a word writes.
pub open spec fn i32_word(word: Seq<char>) -> Option<i32> {
    match signed(vstd::utf8::encode_utf8(word)) {
        Some(value) if i32::MIN <= value <= i32::MAX => Some(value as i32),
        _ => None,
    }
}

/// The number of 64 bits that a word writes in a base.
pub open spec fn u64_word(word: Seq<char>, radix: int) -> Option<u64> {
    match unsigned(vstd::utf8::encode_utf8(word), radix) {
        Some(value) if 0 <= value <= u64::MAX => Some(value as u64),
        _ => None,
    }
}

/// A number cannot be below zero where no sign leads.
pub proof fn lemma_unsigned_is_natural(bytes: Seq<u8>, radix: int)
    requires
        radix >= 1,
    ensures
        unsigned(bytes, radix) matches Some(value) ==> value >= 0,
{
    if bytes.len() > 0 {
        lemma_digits_grow(bytes, 0, radix);
        assert(bytes.take(0) =~= Seq::<u8>::empty());
        lemma_digits_grow(bytes.skip(1), 0, radix);
        assert(bytes.skip(1).take(0) =~= Seq::<u8>::empty());
    }
}

/// Reads the number that a word writes base ten, where a sign may lead.
pub fn word_to_i32(word: &str) -> (result: Option<i32>)
    ensures
        result == i32_word(word@),
{
    parse_i32(word.as_bytes())
}

/// Reads the number that a word writes in a base.
pub fn word_to_u64(word: &str, radix: u64) -> (result: Option<u64>)
    requires
        1 <= radix <= 36,
    ensures
        result == u64_word(word@, radix as int),
{
    proof {
        lemma_unsigned_is_natural(vstd::utf8::encode_utf8(word@), radix as int);
    }
    parse_unsigned(word.as_bytes(), radix, u64::MAX)
}

proof fn lemma_word_end_shifts(chars: Seq<char>, from: int, by: int)
    requires
        0 <= by <= from <= chars.len(),
    ensures
        word_end(chars, from) == word_end(chars.skip(by), from - by) + by,
    decreases chars.len() - from,
{
    if from < chars.len() && !is_white(chars[from]) {
        assert(chars.skip(by)[from - by] == chars[from]);
        lemma_word_end_shifts(chars, from + 1, by);
    } else if from < chars.len() {
        assert(chars.skip(by)[from - by] == chars[from]);
    }
}

proof fn lemma_word_end_is_bounded(chars: Seq<char>, from: int)
    requires
        0 <= from <= chars.len(),
    ensures
        from <= word_end(chars, from) <= chars.len(),
        from < chars.len() && !is_white(chars[from]) ==> from < word_end(chars, from),
    decreases chars.len() - from,
{
    if from < chars.len() && !is_white(chars[from]) {
        lemma_word_end_is_bounded(chars, from + 1);
    }
}

proof fn lemma_words_shift(chars: Seq<char>, from: int, by: int)
    requires
        0 <= by <= from <= chars.len(),
    ensures
        words_from(chars, from) == words_from(chars.skip(by), from - by),
    decreases chars.len() - from,
{
    if from < chars.len() {
        assert(chars.skip(by)[from - by] == chars[from]);
        if is_white(chars[from]) {
            lemma_words_shift(chars, from + 1, by);
        } else {
            lemma_word_end_is_bounded(chars, from);
            lemma_word_end_shifts(chars, from, by);
            let end = word_end(chars, from);
            assert(chars.skip(by).subrange(from - by, end - by) =~= chars.subrange(from, end));
            lemma_words_shift(chars, end, by);
        }
    }
}

proof fn lemma_word_ends_at(chars: Seq<char>, from: int, end: int)
    requires
        0 <= from <= end <= chars.len(),
        forall|i: int| from <= i < end ==> !is_white(#[trigger] chars[i]),
        end < chars.len() ==> is_white(chars[end]),
    ensures
        word_end(chars, from) == end,
    decreases end - from,
{
    if from < end {
        lemma_word_ends_at(chars, from + 1, end);
    }
}

/// Words are what stands between whitespace: whitespace at the front is passed over, a word
/// reaches to the next whitespace or to the end, and the words of the rest follow.
pub proof fn law_words_stand_between_whitespace(word: Seq<char>, space: char, rest: Seq<char>)
    requires
        is_white(space),
        forall|i: int| 0 <= i < word.len() ==> !is_white(#[trigger] word[i]),
    ensures
        words(Seq::empty()) == Seq::<Seq<char>>::empty(),
        words(seq![space] + rest) == words(rest),
        word.len() > 0 ==> words(word) == seq![word],
        word.len() > 0 ==> words(word.push(space) + rest) == seq![word] + words(rest),
{
    let spaced = seq![space] + rest;
    assert(spaced[0] == space);
    lemma_words_shift(spaced, 1, 1);
    assert(spaced.skip(1) =~= rest);
    assert(words(spaced) == words_from(spaced, 1));
    if word.len() > 0 {
        let n = word.len() as int;
        assert(!is_white(word[0]));
        lemma_word_ends_at(word, 0, n);
        assert(word.subrange(0, n) =~= word);
        assert(words_from(word, n) == Seq::<Seq<char>>::empty());
        assert(words(word) =~= seq![word]);
        let all = word.push(space) + rest;
        assert forall|i: int| 0 <= i < n implies !is_white(#[trigger] all[i]) by {
            assert(all[i] == word[i]);
        }
        assert(all[n] == space);
        lemma_word_ends_at(all, 0, n);
        assert(all.subrange(0, n) =~= word);
        assert(words(all) == seq![word] + words_from(all, n));
        assert(words_from(all, n) == words_from(all, n + 1));
        lemma_words_shift(all, n + 1, n + 1);
        assert(all.skip(n + 1) =~= rest);
    }
}

/// Spaces, tabs and line ends are whitespace; no other printed ASCII character is.
pub proof fn law_spaces_are_white(c: char)
    ensures
        c == ' ' || c == '\t' || c == '\n' || c == '\r' ==> is_white(c),
        0x21 <= c as u32 <= 0x7e ==> !is_white(c),
        is_white(c) && c as u32 <= 0x7f ==> c as u32 == 0x20 || 0x09 <= c as u32 <= 0x0d,
{
}

proof fn lemma_line_end_shifts(chars: Seq<char>, from: int, by: int)
    requires
        0 <= by <= from <= chars.len(),
    ensures
        line_end(chars, from) == line_end(chars.skip(by), from - by) + by,
        from <= line_end(chars, from) <= chars.len(),
    decreases chars.len() - from,
{
    if from < chars.len() {
        assert(chars.skip(by)[from - by] == chars[from]);
        if chars[from] != '\n' {
            lemma_line_end_shifts(chars, from + 1, by);
        }
    }
}

proof fn lemma_lines_shift(chars: Seq<char>, from: int, by: int)
    requires
        0 <= by <= from,
        by <= chars.len(),
    ensures
        lines_from(chars, from) == lines_from(chars.skip(by), from - by),
    decreases chars.len() + 1 - from,
{
    if from < chars.len() {
        lemma_line_end_shifts(chars, from, by);
        let end = line_end(chars, from);
        let later = chars.skip(by);
        if from < end < chars.len() {
            assert(later[end - by - 1] == chars[end - 1]);
            assert(later.subrange(from - by, end - by - 1) =~= chars.subrange(from, end - 1));
        }
        assert(later.subrange(from - by, end - by) =~= chars.subrange(from, end));
        assert(bare_line(chars, from, end) == bare_line(later, from - by, end - by));
        lemma_lines_shift(chars, end + 1, by);
    }
}

proof fn lemma_line_ends_at(chars: Seq<char>, from: int, end: int)
    requires
        0 <= from <= end <= chars.len(),
        forall|i: int| from <= i < end ==> #[trigger] chars[i] != '\n',
        end < chars.len() ==> chars[end] == '\n',
    ensures
        line_end(chars, from) == end,
    decreases end - from,
{
    if from < end {
        lemma_line_ends_at(chars, from + 1, end);
    }
}

/// Lines are what stands before line ends: a text without one is a line of its own, a line
/// reaches to the next line end, loses a carriage return before it, and the lines of the
/// rest follow.
pub proof fn law_lines_stand_before_line_ends(line: Seq<char>, rest: Seq<char>)
    requires
        forall|i: int| 0 <= i < line.len() ==> #[trigger] line[i] != '\n',
    ensures
        lines(Seq::empty()) == Seq::<Seq<char>>::empty(),
        line.len() > 0 ==> lines(line) == seq![line],
        line.len() == 0 || line.last() != '\r' ==> lines(line.push('\n') + rest) == seq![line] + lines(rest),
        lines(line.push('\r').push('\n') + rest) == seq![line] + lines(rest),
{
    let n = line.len() as int;
    if n > 0 {
        lemma_line_ends_at(line, 0, n);
        assert(line.subrange(0, n) =~= line);
        assert(lines_from(line, n + 1) == Seq::<Seq<char>>::empty());
        assert(lines(line) =~= seq![line]);
    }
    if n == 0 || line.last() != '\r' {
        let all = line.push('\n') + rest;
        assert(all[n] == '\n');
        assert forall|i: int| 0 <= i < n implies #[trigger] all[i] != '\n' by {
            assert(all[i] == line[i]);
        }
        lemma_line_ends_at(all, 0, n);
        if n > 0 {
            assert(all[n - 1] == line.last());
        }
        assert(all.subrange(0, n) =~= line);
        lemma_lines_shift(all, n + 1, n + 1);
        assert(all.skip(n + 1) =~= rest);
    }
    let returned = line.push('\r').push('\n') + rest;
    assert(returned[n] == '\r' && returned[n + 1] == '\n');
    assert forall|i: int| 0 <= i < n + 1 implies #[trigger] returned[i] != '\n' by {
        if i < n {
            assert(returned[i] == line[i]);
        }
    }
    lemma_line_ends_at(returned, 0, n + 1);
    assert(returned.subrange(0, n) =~= line);
    lemma_lines_shift(returned, n + 2, n + 2);
    assert(returned.skip(n + 2) =~= rest);
}

proof fn lemma_trim_bounds(bytes: Seq<u8>) -> (bounds: (int, int))
    ensures
        trimmed(bytes).len() > 0 ==> !is_blank(trimmed(bytes)[0]) && !is_blank(trimmed(bytes).last()),
        0 <= bounds.0 <= bounds.1 <= bytes.len(),
        trimmed(bytes) == bytes.subrange(bounds.0, bounds.1),
        forall|i: int| 0 <= i < bounds.0 || bounds.1 <= i < bytes.len() ==> is_blank(#[trigger] bytes[i]),
    decreases bytes.len(),
{
    if bytes.len() == 0 {
        assert(bytes.subrange(0, 0) =~= bytes);
        (0, 0)
    } else if is_blank(bytes[0]) {
        let rest = bytes.skip(1);
        let (from, to) = lemma_trim_bounds(rest);
        assert(bytes.subrange(from + 1, to + 1) =~= rest.subrange(from, to));
        assert forall|i: int| 0 <= i < from + 1 || to + 1 <= i < bytes.len() implies is_blank(#[trigger] bytes[i]) by {
            if i > 0 {
                assert(rest[i - 1] == bytes[i]);
            }
        }
        (from + 1, to + 1)
    } else if is_blank(bytes.last()) {
        let rest = bytes.drop_last();
        let (from, to) = lemma_trim_bounds(rest);
        assert(bytes.subrange(from, to) =~= rest.subrange(from, to));
        assert forall|i: int| 0 <= i < from || to <= i < bytes.len() implies is_blank(#[trigger] bytes[i]) by {
            if i < bytes.len() - 1 {
                assert(rest[i] == bytes[i]);
            }
        }
        (from, to)
    } else {
        assert(bytes.subrange(0, bytes.len() as int) =~= bytes);
        (0, bytes.len() as int)
    }
}

/// Trimming takes blanks off both ends, and nothing else.
pub proof fn law_trimming_takes_blanks_off_the_ends(bytes: Seq<u8>)
    ensures
        trimmed(bytes).len() > 0 ==> !is_blank(trimmed(bytes)[0]) && !is_blank(trimmed(bytes).last()),
        exists|from: int, to: int|
            #![trigger bytes.subrange(from, to)]
            0 <= from <= to <= bytes.len() && trimmed(bytes) == bytes.subrange(from, to) && (forall|i: int|
                0 <= i < from || to <= i < bytes.len() ==> is_blank(#[trigger] bytes[i])),
{
    let (from, to) = lemma_trim_bounds(bytes);
    assert(trimmed(bytes) == bytes.subrange(from, to));
}

/// The blanks are the space and the ASCII control characters from the tab to the carriage
/// return.
pub proof fn law_blanks_are_spaces(byte: u8)
    ensures
        is_blank(byte) <==> byte == 0x20 || byte == 0x09 || byte == 0x0a || byte == 0x0b || byte == 0x0c || byte == 0x0d,
{
}

proof fn lemma_byte_is_found(bytes: Seq<u8>, byte: u8, from: int, at: int)
    requires
        0 <= from <= at <= bytes.len(),
        forall|i: int| from <= i < at ==> #[trigger] bytes[i] != byte,
        at < bytes.len() ==> bytes[at] == byte,
    ensures
        find_byte(bytes, byte, from) == at,
    decreases at - from,
{
    if from < at {
        lemma_byte_is_found(bytes, byte, from + 1, at);
    }
}

proof fn lemma_found_byte_shifts(bytes: Seq<u8>, byte: u8, from: int, by: int)
    requires
        0 <= by <= from <= bytes.len(),
    ensures
        find_byte(bytes, byte, from) == find_byte(bytes.skip(by), byte, from - by) + by,
        from <= find_byte(bytes, byte, from) <= bytes.len(),
    decreases bytes.len() - from,
{
    if from < bytes.len() {
        assert(bytes.skip(by)[from - by] == bytes[from]);
        if bytes[from] != byte {
            lemma_found_byte_shifts(bytes, byte, from + 1, by);
        }
    }
}

proof fn lemma_line_behind_shifts(bytes: Seq<u8>, prefix: Seq<u8>, from: int, by: int)
    requires
        0 <= by <= from <= bytes.len(),
    ensures
        line_behind(bytes, prefix, from) == line_behind(bytes.skip(by), prefix, from - by),
    decreases bytes.len() - from,
{
    lemma_found_byte_shifts(bytes, 0x0a, from, by);
    let end = find_byte(bytes, 0x0a, from);
    let later = bytes.skip(by);
    if end - from >= prefix.len() {
        assert(later.subrange(from - by, from - by + prefix.len()) =~= bytes.subrange(from, from + prefix.len()));
        assert(later.subrange(from - by + prefix.len(), end - by) =~= bytes.subrange(from + prefix.len(), end));
    }
    if end < bytes.len() {
        lemma_line_behind_shifts(bytes, prefix, end + 1, by);
    }
}

/// What stands behind a prefix is the rest of the first line that begins with it: a line
/// that begins with it is the one, whatever follows; a line that does not is passed over.
pub proof fn law_first_line_with_a_prefix_is_found(prefix: Seq<u8>, rest: Seq<u8>, line: Seq<u8>, more: Seq<u8>)
    requires
        !prefix.contains(0x0a),
        !rest.contains(0x0a),
        !line.contains(0x0a),
        !begins_with(line, prefix),
    ensures
        line_behind(prefix + rest, prefix, 0) == Some(rest),
        line_behind((prefix + rest).push(0x0a) + more, prefix, 0) == Some(rest),
        line_behind(line, prefix, 0) is None,
        line_behind(line.push(0x0a) + more, prefix, 0) == line_behind(more, prefix, 0),
{
    let held = prefix + rest;
    let n = held.len() as int;
    assert forall|i: int| 0 <= i < n implies #[trigger] held[i] != 0x0a by {
        if i < prefix.len() {
            assert(prefix.contains(prefix[i]));
        } else {
            assert(rest.contains(rest[i - prefix.len()]));
        }
    }
    lemma_byte_is_found(held, 0x0a, 0, n);
    assert(held.subrange(0, prefix.len() as int) =~= prefix);
    assert(held.subrange(prefix.len() as int, n) =~= rest);
    let all = held.push(0x0a) + more;
    assert forall|i: int| 0 <= i < n implies #[trigger] all[i] != 0x0a by {
        assert(all[i] == held[i]);
    }
    assert(all[n] == 0x0a);
    lemma_byte_is_found(all, 0x0a, 0, n);
    assert(all.subrange(0, prefix.len() as int) =~= prefix);
    assert(all.subrange(prefix.len() as int, n) =~= rest);
    let m = line.len() as int;
    assert forall|i: int| 0 <= i < m implies #[trigger] line[i] != 0x0a by {
        assert(line.contains(line[i]));
    }
    lemma_byte_is_found(line, 0x0a, 0, m);
    if m >= prefix.len() {
        assert(line.subrange(0, prefix.len() as int) =~= line.take(prefix.len() as int));
    }
    let other = line.push(0x0a) + more;
    assert forall|i: int| 0 <= i < m implies #[trigger] other[i] != 0x0a by {
        assert(other[i] == line[i]);
    }
    assert(other[m] == 0x0a);
    lemma_byte_is_found(other, 0x0a, 0, m);
    if m >= prefix.len() {
        assert(other.subrange(0, prefix.len() as int) =~= line.take(prefix.len() as int));
    }
    lemma_line_behind_shifts(other, prefix, m + 1, m + 1);
    assert(other.skip(m + 1) =~= more);
}

/// Whether a pattern stands at a place.
pub open spec fn has_at(chars: Seq<char>, pattern: Seq<char>, at: int) -> bool {
    0 <= at && at + pattern.len() <= chars.len() && chars.subrange(at, at + pattern.len()) == pattern
}

proof fn lemma_last_match(chars: Seq<char>, pattern: Seq<char>, from: int)
    requires
        from <= chars.len(),
    ensures
        ({
            let at = last_match(chars, pattern, from);
            &&& at >= 0 ==> at <= from && has_at(chars, pattern, at)
            &&& forall|i: int| at < i <= from ==> !#[trigger] has_at(chars, pattern, i)
        }),
    decreases from + 1,
{
    if from >= 0 && !has_at(chars, pattern, from) {
        lemma_last_match(chars, pattern, from - 1);
    }
}

/// What stands behind the last place of a pattern: the pattern stands right before it, and
/// at no later place; where there is nothing, the pattern stands nowhere.
pub proof fn law_last_places_are_last(chars: Seq<char>, pattern: Seq<char>)
    ensures
        match behind_last(chars, pattern) {
            Some(rest) => {
                let at = chars.len() - rest.len() - pattern.len();
                &&& has_at(chars, pattern, at)
                &&& chars.skip(at + pattern.len()) == rest
                &&& forall|i: int| at < i ==> !#[trigger] has_at(chars, pattern, i)
            },
            None => forall|i: int| !#[trigger] has_at(chars, pattern, i),
        },
{
    lemma_last_match(chars, pattern, chars.len() as int);
}

/// Digits count as their numbers say, letters go on behind nine, in either case, and the
/// first digit weighs most.
pub proof fn law_digits_weigh_by_their_place(bytes: Seq<u8>, digit: u8)
    ensures
        0x30 <= digit <= 0x39 ==> digit_value(digit, 10) == Some(digit - 0x30) && digit_value(digit, 16) == Some(
            digit - 0x30,
        ),
        0x61 <= digit <= 0x66 ==> digit_value(digit, 16) == Some(digit - 0x61 + 10) && digit_value(digit, 10) is None,
        0x41 <= digit <= 0x46 ==> digit_value(digit, 16) == digit_value((digit + 0x20) as u8, 16),
        digit > 0x66 || digit < 0x30 || 0x39 < digit < 0x41 || 0x46 < digit < 0x61 ==> digit_value(digit, 16) is None,
        0x30 <= digit <= 0x39 ==> (digits(bytes, 10) matches Some(value) ==> digits(bytes.push(digit), 10) == Some(
            10 * value + (digit - 0x30),
        )),
        0x30 <= digit <= 0x39 ==> (digits(bytes, 16) matches Some(value) ==> digits(bytes.push(digit), 16) == Some(
            16 * value + (digit - 0x30),
        )),
        0x61 <= digit <= 0x66 ==> (digits(bytes, 16) matches Some(value) ==> digits(bytes.push(digit), 16) == Some(
            16 * value + (digit - 0x61 + 10),
        )),
        digits(Seq::empty(), 10) == Some(0int),
        digits(Seq::empty(), 16) == Some(0int),
{
    assert(bytes.push(digit).drop_last() =~= bytes);
}

/// A number may have a plus sign, and a signed one a minus sign; a sign alone is no number,
/// and neither is nothing.
pub proof fn law_signs_stand_before_digits(bytes: Seq<u8>)
    requires
        bytes.len() > 0,
        bytes[0] != 0x2b,
        bytes[0] != 0x2d,
    ensures
        unsigned(Seq::empty(), 10) is None,
        unsigned(seq![0x2bu8], 10) is None,
        unsigned(bytes, 10) == digits(bytes, 10),
        unsigned(seq![0x2bu8] + bytes, 10) == digits(bytes, 10),
        signed(bytes) == digits(bytes, 10),
        signed(seq![0x2du8] + bytes) == match digits(bytes, 10) {
            Some(value) => Some(-value),
            None => None,
        },
        signed(seq![0x2bu8] + bytes) == digits(bytes, 10),
        signed(Seq::empty()) is None,
{
    assert((seq![0x2bu8] + bytes).skip(1) =~= bytes);
    assert((seq![0x2du8] + bytes).skip(1) =~= bytes);
}

} // verus!
