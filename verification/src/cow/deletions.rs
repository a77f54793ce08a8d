//! Which paths a branch has deleted.
//!
//! A deleted path hides everything below it too. Paths are never taken out of
//! the set again: one that is made anew shows because the upper layer has it.
//! A log keeps the paths, one on each line, so that they outlive the process.

use crate::byte_set;
use crate::byte_set::ByteSet;
use crate::path;
use crate::path::append_bytes;
use crate::text;
use crate::text::{is_text, position_of};
use vstd::prelude::*;

verus! {

pub const BACKSLASH: u8 = 0x5c;

pub const NEWLINE: u8 = 0x0a;

pub const RETURN: u8 = 0x0d;

/// One byte of a path as the log holds it.
pub open spec fn escaped_byte(byte: u8) -> Seq<u8> {
    if byte == BACKSLASH {
        seq![BACKSLASH, BACKSLASH]
    } else if byte == NEWLINE {
        seq![BACKSLASH, 0x6eu8]
    } else if byte == RETURN {
        seq![BACKSLASH, 0x72u8]
    } else {
        seq![byte]
    }
}

/// A path as the log holds it: without line ends.
pub open spec fn escaped(raw: Seq<u8>) -> Seq<u8>
    decreases raw.len(),
{
    if raw.len() == 0 {
        Seq::empty()
    } else {
        escaped_byte(raw[0]) + escaped(raw.skip(1))
    }
}

/// The path that a line of the log stands for.
pub open spec fn unescaped(line: Seq<u8>) -> Seq<u8>
    decreases line.len(),
{
    if line.len() == 0 {
        Seq::empty()
    } else if line[0] != BACKSLASH {
        seq![line[0]] + unescaped(line.skip(1))
    } else if line.len() == 1 {
        seq![BACKSLASH]
    } else {
        let byte = if line[1] == 0x6e {
            NEWLINE
        } else if line[1] == 0x72 {
            RETURN
        } else {
            line[1]
        };
        seq![byte] + unescaped(line.skip(2))
    }
}

/// The line of a path reads back as the path.
pub proof fn law_escaping_is_undone(raw: Seq<u8>)
    ensures
        unescaped(escaped(raw)) == raw,
    decreases raw.len(),
{
    if raw.len() > 0 {
        law_escaping_is_undone(raw.skip(1));
        let rest = escaped(raw.skip(1));
        let line = escaped(raw);
        assert(seq![raw[0]] + raw.skip(1) =~= raw);
        if raw[0] == BACKSLASH || raw[0] == NEWLINE || raw[0] == RETURN {
            assert(line.skip(2) =~= rest);
        } else {
            assert(line.skip(1) =~= rest);
        }
    }
}

/// No line of the log holds a line end or a carriage return.
pub proof fn law_lines_hold_no_line_ends(raw: Seq<u8>)
    ensures
        forall|i: int| 0 <= i < escaped(raw).len() ==> #[trigger] escaped(raw)[i] != NEWLINE && escaped(raw)[i] != RETURN,
        raw.len() > 0 ==> escaped(raw).len() > 0,
    decreases raw.len(),
{
    if raw.len() > 0 {
        law_lines_hold_no_line_ends(raw.skip(1));
        let first = escaped_byte(raw[0]);
        let rest = escaped(raw.skip(1));
        assert forall|i: int| 0 <= i < escaped(raw).len() implies #[trigger] escaped(raw)[i] != NEWLINE && escaped(
            raw,
        )[i] != RETURN by {
            if i < first.len() {
                assert(escaped(raw)[i] == first[i]);
            } else {
                assert(escaped(raw)[i] == rest[i - first.len()]);
            }
        }
    }
}

/// Writes a path as the log holds it.
pub fn escape(raw: &[u8]) -> (line: Vec<u8>)
    ensures
        line@ == escaped(raw@),
{
    let mut line: Vec<u8> = Vec::new();
    let mut i: usize = 0;
    proof {
        assert(raw@.skip(0) =~= raw@);
    }
    while i < raw.len()
        invariant
            i <= raw@.len(),
            escaped(raw@) == line@ + escaped(raw@.skip(i as int)),
        decreases raw@.len() - i,
    {
        let byte = raw[i];
        let ghost before = line@;
        proof {
            assert(raw@.skip(i as int).skip(1) =~= raw@.skip(i + 1));
        }
        if byte == BACKSLASH {
            line.push(BACKSLASH);
            line.push(BACKSLASH);
        } else if byte == NEWLINE {
            line.push(BACKSLASH);
            line.push(0x6e);
        } else if byte == RETURN {
            line.push(BACKSLASH);
            line.push(0x72);
        } else {
            line.push(byte);
        }
        proof {
            assert(line@ =~= before + escaped_byte(byte));
            assert(before + (escaped_byte(byte) + escaped(raw@.skip(i + 1))) =~= line@ + escaped(raw@.skip(i + 1)));
        }
        i = i + 1;
    }
    proof {
        assert(raw@.skip(i as int) =~= Seq::<u8>::empty());
        assert(line@ + escaped(raw@.skip(i as int)) =~= line@);
    }
    line
}

/// Reads the path that a line of the log stands for.
pub fn unescape(line: &[u8]) -> (raw: Vec<u8>)
    ensures
        raw@ == unescaped(line@),
{
    let mut raw: Vec<u8> = Vec::new();
    let mut i: usize = 0;
    proof {
        assert(line@.skip(0) =~= line@);
    }
    while i < line.len()
        invariant
            i <= line@.len(),
            unescaped(line@) == raw@ + unescaped(line@.skip(i as int)),
        decreases line@.len() - i,
    {
        let byte = line[i];
        let ghost before = raw@;
        let ghost rest = line@.skip(i as int);
        if byte != BACKSLASH {
            raw.push(byte);
            proof {
                assert(rest.skip(1) =~= line@.skip(i + 1));
                assert(before + (seq![byte] + unescaped(rest.skip(1))) =~= raw@ + unescaped(line@.skip(i + 1)));
            }
            i = i + 1;
        } else if i + 1 >= line.len() {
            raw.push(BACKSLASH);
            proof {
                assert(line@.skip(i + 1) =~= Seq::<u8>::empty());
                assert(before + seq![BACKSLASH] =~= raw@ + unescaped(line@.skip(i + 1)));
            }
            i = i + 1;
        } else {
            let next = line[i + 1];
            let stands: u8 = if next == 0x6e {
                NEWLINE
            } else if next == 0x72 {
                RETURN
            } else {
                next
            };
            raw.push(stands);
            proof {
                assert(rest.skip(2) =~= line@.skip(i + 2));
                assert(before + (seq![stands] + unescaped(rest.skip(2))) =~= raw@ + unescaped(line@.skip(i + 2)));
            }
            i = i + 2;
        }
    }
    proof {
        assert(line@.skip(i as int) =~= Seq::<u8>::empty());
        assert(raw@ + unescaped(line@.skip(i as int)) =~= raw@);
    }
    raw
}

/// A line without a carriage return at its end.
pub open spec fn without_return(line: Seq<u8>) -> Seq<u8> {
    if line.len() > 0 && line.last() == RETURN {
        line.drop_last()
    } else {
        line
    }
}

/// The paths that a log holds: one for each complete line of text that is not empty.
/// A line that is no text is skipped. What follows the last line end was torn off, and
/// counts for nothing.
pub open spec fn replayed(log: Seq<u8>) -> Set<Seq<u8>>
    decreases log.len(),
{
    let end = text::find_byte(log, NEWLINE, 0);
    if end < 0 || end >= log.len() {
        Set::empty()
    } else {
        let line = without_return(log.take(end));
        let rest = replayed(log.skip(end + 1));
        if line.len() == 0 || !vstd::utf8::valid_utf8(line) {
            rest
        } else {
            rest.insert(unescaped(line))
        }
    }
}

/// Reads the paths that a log holds.
pub fn read_complete(log: &[u8]) -> (entries: ByteSet)
    ensures
        entries.wf(),
        entries@ == replayed(log@),
{
    let mut entries = ByteSet::new();
    let mut from: usize = 0;
    proof {
        assert(log@.skip(0) =~= log@);
        assert(entries@.union(replayed(log@)) =~= replayed(log@));
    }
    loop
        invariant
            from <= log@.len(),
            entries.wf(),
            entries@.union(replayed(log@.skip(from as int))) == replayed(log@),
        decreases log@.len() - from,
    {
        let ghost rest = log@.skip(from as int);
        let end = position_of(log, NEWLINE, from);
        proof {
            lemma_find_shifted(log@, from as int, end as int);
        }
        if end >= log.len() {
            proof {
                assert(entries@.union(Set::<Seq<u8>>::empty()) =~= entries@);
            }
            return entries;
        }
        let mut stop: usize = end;
        if stop > from && log[stop - 1] == RETURN {
            stop = stop - 1;
        }
        proof {
            assert(rest.take(end - from) =~= log@.subrange(from as int, end as int));
            assert(without_return(rest.take(end - from)) =~= log@.subrange(from as int, stop as int));
            assert(rest.skip(end - from + 1) =~= log@.skip(end + 1));
        }
        let ghost later = replayed(log@.skip(end + 1));
        if stop > from {
            let line = vstd::slice::slice_subrange(log, from, stop);
            if is_text(line) {
                let raw = unescape(line);
                let ghost before = entries@;
                entries.insert(raw.as_slice());
                proof {
                    assert(before.insert(raw@).union(later) =~= before.union(later.insert(raw@)));
                }
            }
        }
        from = end + 1;
    }
}

proof fn lemma_find_shifted(bytes: Seq<u8>, from: int, end: int)
    requires
        0 <= from <= end <= bytes.len(),
        forall|i: int| from <= i < end ==> bytes[i] != NEWLINE,
        end < bytes.len() ==> bytes[end] == NEWLINE,
    ensures
        text::find_byte(bytes.skip(from), NEWLINE, 0) == end - from,
{
    text::lemma_find_byte(bytes.skip(from), NEWLINE, 0, end - from);
}

/// The log of some paths.
pub open spec fn log_of(paths: Seq<Seq<u8>>) -> Seq<u8>
    decreases paths.len(),
{
    if paths.len() == 0 {
        Seq::empty()
    } else {
        log_of(paths.drop_last()) + escaped(paths.last()).push(NEWLINE)
    }
}

proof fn lemma_escaped_parts(a: Seq<u8>, b: Seq<u8>)
    ensures
        escaped(a + b) == escaped(a) + escaped(b),
    decreases a.len(),
{
    if a.len() == 0 {
        assert(a + b =~= b);
        assert(escaped(a) + escaped(b) =~= escaped(b));
    } else {
        assert((a + b).skip(1) =~= a.skip(1) + b);
        lemma_escaped_parts(a.skip(1), b);
        assert(escaped_byte(a[0]) + (escaped(a.skip(1)) + escaped(b)) =~= escaped(a) + escaped(b));
    }
}

proof fn lemma_plain_stays(raw: Seq<u8>)
    requires
        forall|i: int| 0 <= i < raw.len() ==> #[trigger] raw[i] >= 0x80,
    ensures
        escaped(raw) == raw,
    decreases raw.len(),
{
    if raw.len() > 0 {
        lemma_plain_stays(raw.skip(1));
        assert(seq![raw[0]] + raw.skip(1) =~= raw);
    }
}

proof fn lemma_ascii_is_text(bytes: Seq<u8>)
    requires
        forall|i: int| 0 <= i < bytes.len() ==> #[trigger] bytes[i] < 0x80,
    ensures
        vstd::utf8::valid_utf8(bytes),
    decreases bytes.len(),
{
    if bytes.len() > 0 {
        assert(vstd::utf8::valid_first_scalar(bytes));
        let rest = vstd::utf8::pop_first_scalar(bytes);
        assert(rest =~= bytes.skip(1));
        lemma_ascii_is_text(rest);
    }
}

/// A path that is text has a line that is text.
proof fn lemma_escaped_is_text(raw: Seq<u8>)
    requires
        vstd::utf8::valid_utf8(raw),
    ensures
        vstd::utf8::valid_utf8(escaped(raw)),
    decreases raw.len(),
{
    if raw.len() > 0 {
        let first = vstd::utf8::take_first_scalar(raw);
        let rest = vstd::utf8::pop_first_scalar(raw);
        assert(raw =~= first + rest);
        lemma_escaped_is_text(rest);
        lemma_escaped_parts(first, rest);
        if raw[0] < 0x80 {
            assert(first =~= seq![raw[0]]);
            assert(first.skip(1) =~= Seq::<u8>::empty());
            assert(escaped(first.skip(1)) =~= Seq::<u8>::empty());
            assert(escaped(first) =~= escaped_byte(raw[0]));
            lemma_ascii_is_text(escaped(first));
        } else {
            assert(forall|i: int| 0 <= i < first.len() ==> #[trigger] first[i] >= 0x80);
            lemma_plain_stays(first);
            assert(vstd::utf8::valid_first_scalar(first));
            assert(vstd::utf8::pop_first_scalar(first) =~= Seq::<u8>::empty());
            assert(vstd::utf8::valid_utf8(Seq::<u8>::empty()));
            assert(vstd::utf8::valid_utf8(first));
        }
        vstd::utf8::valid_utf8_concat(escaped(first), escaped(rest));
    }
}

/// What one line at the front of a log adds.
proof fn lemma_replay_line(raw: Seq<u8>, rest: Seq<u8>)
    requires
        raw.len() > 0,
        vstd::utf8::valid_utf8(raw),
    ensures
        replayed(escaped(raw).push(NEWLINE) + rest) == replayed(rest).insert(raw),
{
    law_escaping_is_undone(raw);
    law_lines_hold_no_line_ends(raw);
    lemma_escaped_is_text(raw);
    let line = escaped(raw);
    let log = line.push(NEWLINE) + rest;
    assert forall|i: int| 0 <= i < line.len() implies log[i] != NEWLINE by {
        assert(log[i] == line[i]);
    }
    text::lemma_find_byte(log, NEWLINE, 0, line.len() as int);
    assert(log.take(line.len() as int) =~= line);
    assert(line.last() == line[line.len() - 1]);
    assert(without_return(line) == line);
    assert(log.skip(line.len() as int + 1) =~= rest);
}

/// Replaying a log gives back the paths that were written to it, whatever was
/// torn off after them. The empty path leaves no trace, and paths are text.
pub proof fn law_log_replays(paths: Seq<Seq<u8>>, torn: Seq<u8>)
    requires
        forall|i: int|
            0 <= i < paths.len() ==> (#[trigger] paths[i]).len() > 0 && vstd::utf8::valid_utf8(paths[i]),
        forall|i: int| 0 <= i < torn.len() ==> #[trigger] torn[i] != NEWLINE,
    ensures
        replayed(log_of(paths) + torn) == paths.to_set(),
{
    lemma_replay_from(paths, torn);
    text::lemma_find_byte(torn, NEWLINE, 0, torn.len() as int);
    assert(paths.to_set().union(Set::<Seq<u8>>::empty()) =~= paths.to_set());
}

proof fn lemma_replay_from(paths: Seq<Seq<u8>>, rest: Seq<u8>)
    requires
        forall|i: int|
            0 <= i < paths.len() ==> (#[trigger] paths[i]).len() > 0 && vstd::utf8::valid_utf8(paths[i]),
    ensures
        replayed(log_of(paths) + rest) == paths.to_set().union(replayed(rest)),
    decreases paths.len(),
{
    if paths.len() == 0 {
        assert(log_of(paths) + rest =~= rest);
        assert(paths.to_set().union(replayed(rest)) =~= replayed(rest));
    } else {
        let before = paths.drop_last();
        let last = paths.last();
        assert(last == paths[paths.len() - 1]);
        let line = escaped(last).push(NEWLINE);
        assert forall|i: int| 0 <= i < before.len() implies (#[trigger] before[i]).len() > 0
            && vstd::utf8::valid_utf8(before[i]) by {
            assert(before[i] == paths[i]);
        }
        lemma_replay_from(before, line + rest);
        lemma_replay_line(last, rest);
        assert(log_of(paths) + rest =~= log_of(before) + (line + rest));
        assert forall|x: Seq<u8>| #[trigger] paths.contains(x) <==> (before.contains(x) || x == last) by {
            if before.contains(x) {
                let i = choose|i: int| 0 <= i < before.len() && before[i] == x;
                assert(paths[i] == x);
            }
            if x == last {
                assert(paths[paths.len() - 1] == x);
            }
            if paths.contains(x) {
                let i = choose|i: int| 0 <= i < paths.len() && paths[i] == x;
                if i < before.len() {
                    assert(before[i] == x);
                }
            }
        }
        assert(before.to_set().union(replayed(rest).insert(last)) =~= paths.to_set().union(replayed(rest)));
    }
}

/// The paths that a branch has deleted, and whether a log keeps them.
pub struct DeletionSet {
    entries: ByteSet,
    logged: bool,
}

/// What a set of deleted paths holds.
#[verifier::ext_equal]
pub struct Deletions {
    pub entries: Set<Seq<u8>>,
    pub logged: bool,
}

impl View for DeletionSet {
    type V = Deletions;

    closed spec fn view(&self) -> Deletions {
        Deletions { entries: self.entries@, logged: self.logged }
    }
}

/// Whether a path or a directory above it is deleted.
pub open spec fn covered(entries: Set<Seq<u8>>, rel: Seq<u8>) -> bool {
    exists|end: int| #[trigger] ends_component(rel, end) && entries.contains(rel.take(end))
}

/// Whether a component of a path ends at a place.
pub open spec fn ends_component(rel: Seq<u8>, end: int) -> bool {
    0 <= end <= rel.len() && (end == rel.len() || rel[end] == path::SEPARATOR)
}

impl DeletionSet {
    /// The strings are ordered.
    pub closed spec fn wf(&self) -> bool {
        self.entries.wf()
    }

    /// The paths in order.
    pub closed spec fn listed(&self) -> Seq<Seq<u8>> {
        self.entries.items()
    }

    /// A fresh set, with or without a log that could be opened.
    pub fn create(logged: bool) -> (set: DeletionSet)
        ensures
            set.wf(),
            set@ == (Deletions { entries: Set::empty(), logged }),
    {
        DeletionSet { entries: ByteSet::new(), logged }
    }

    /// A set that takes the place of what a log held, and the new log.
    pub fn replace(paths: &Vec<Vec<u8>>, logged: bool) -> (result: (DeletionSet, Vec<u8>))
        ensures
            result.0.wf(),
            result.0@ == (Deletions { entries: path::byte_views(paths@).to_set(), logged }),
            result.1@ == log_of(result.0.listed()),
            byte_set::bytes_in_order(result.0.listed()),
            result.0.listed().to_set() == result.0@.entries,
    {
        let mut entries = ByteSet::new();
        let ghost views = path::byte_views(paths@);
        let mut i: usize = 0;
        proof {
            assert(views.take(0).to_set() =~= Set::<Seq<u8>>::empty());
        }
        while i < paths.len()
            invariant
                i <= paths@.len(),
                views == path::byte_views(paths@),
                entries.wf(),
                entries@ == views.take(i as int).to_set(),
            decreases paths@.len() - i,
        {
            entries.insert(paths[i].as_slice());
            proof {
                let added = views[i as int];
                assert(added == paths@[i as int]@);
                assert(views.take(i as int + 1) =~= views.take(i as int).push(added));
                views.take(i as int).lemma_push_to_set_commute(added);
            }
            i = i + 1;
        }
        proof {
            assert(views.take(i as int) =~= views);
        }
        let mut log: Vec<u8> = Vec::new();
        let ghost listed = entries.items();
        let mut k: usize = 0;
        proof {
            assert(listed.take(0) =~= Seq::<Seq<u8>>::empty());
        }
        while k < entries.len()
            invariant
                k <= listed.len(),
                listed == entries.items(),
                log@ == log_of(listed.take(k as int)),
            decreases listed.len() - k,
        {
            let mut line = escape(entries.item_at(k));
            line.push(NEWLINE);
            proof {
                assert(listed.take(k as int + 1).drop_last() =~= listed.take(k as int));
                assert(listed.take(k as int + 1).last() == listed[k as int]);
            }
            append_bytes(&mut log, line.as_slice());
            k = k + 1;
        }
        proof {
            assert(listed.take(k as int) =~= listed);
        }
        (DeletionSet { entries, logged }, log)
    }

    /// The set that a log holds; whether the log can be written on.
    pub fn load(log: &[u8], logged: bool) -> (set: DeletionSet)
        ensures
            set.wf(),
            set@ == (Deletions { entries: replayed(log@), logged }),
    {
        DeletionSet { entries: read_complete(log), logged }
    }

    /// Records a path as deleted. Gives the line that is written to the log: only
    /// the first time, and only where there is a log.
    pub fn insert(&mut self, rel: &[u8]) -> (line: Option<Vec<u8>>)
        requires
            old(self).wf(),
        ensures
            final(self).wf(),
            final(self)@ == (Deletions { entries: old(self)@.entries.insert(rel@), ..old(self)@ }),
            match line {
                Some(bytes) => old(self)@.logged && !old(self)@.entries.contains(rel@) && bytes@ == escaped(
                    rel@,
                ).push(NEWLINE),
                None => !old(self)@.logged || old(self)@.entries.contains(rel@),
            },
    {
        if !self.entries.insert(rel) {
            return None;
        }
        if !self.logged {
            return None;
        }
        let mut line = escape(rel);
        line.push(NEWLINE);
        Some(line)
    }

    /// Whether a path or a directory above it is deleted, component by
    /// component: `d` covers `d/x` but never `d2`.
    pub fn covers(&self, rel: &[u8]) -> (result: bool)
        requires
            self.wf(),
        ensures
            result == covered(self@.entries, rel@),
    {
        let mut end: usize = 0;
        loop
            invariant
                end <= rel@.len(),
                self.wf(),
                forall|i: int| 0 <= i < end && #[trigger] ends_component(rel@, i) ==> !self@.entries.contains(
                    rel@.take(i),
                ),
            decreases rel@.len() - end,
        {
            let stop = position_of(rel, path::SEPARATOR, end);
            let part = vstd::slice::slice_subrange(rel, 0, stop);
            proof {
                assert(part@ =~= rel@.take(stop as int));
                assert(ends_component(rel@, stop as int));
            }
            if self.entries.contains(part) {
                return true;
            }
            if stop >= rel.len() {
                return false;
            }
            end = stop + 1;
        }
    }

    /// The paths, in bytewise order, each once.
    pub fn iter(&self) -> (list: Vec<Vec<u8>>)
        requires
            self.wf(),
        ensures
            path::byte_views(list@) == self.listed(),
            byte_set::bytes_in_order(path::byte_views(list@)),
            path::byte_views(list@).to_set() == self@.entries,
    {
        self.entries.to_list()
    }
}

/// A deletion hides what lies below: whatever covers a directory covers every
/// path below it.
pub proof fn law_deletions_cover_subtrees(entries: Set<Seq<u8>>, rel: Seq<u8>, below: Seq<u8>)
    requires
        covered(entries, rel),
    ensures
        covered(entries, rel.push(path::SEPARATOR) + below),
{
    let end = choose|end: int| #[trigger] ends_component(rel, end) && entries.contains(rel.take(end));
    let whole = rel.push(path::SEPARATOR) + below;
    assert(whole.take(end) =~= rel.take(end));
    assert(ends_component(whole, end));
}

/// Deleting more never uncovers a path.
pub proof fn law_deletions_only_grow(entries: Set<Seq<u8>>, deleted: Seq<u8>, rel: Seq<u8>)
    requires
        covered(entries, rel),
    ensures
        covered(entries.insert(deleted), rel),
{
    let end = choose|end: int| #[trigger] ends_component(rel, end) && entries.contains(rel.take(end));
    assert(ends_component(rel, end) && entries.insert(deleted).contains(rel.take(end)));
}

/// A deletion covers itself and what lies below it, and nothing else.
pub proof fn law_deletions_cover_nothing_beside(deleted: Seq<u8>, rel: Seq<u8>)
    ensures
        covered(set![deleted], rel) <==> rel == deleted || (rel.len() > deleted.len() && rel.take(deleted.len() as int)
            == deleted && rel[deleted.len() as int] == 0x2f),
        !covered(Set::empty(), rel),
{
    let entries = set![deleted];
    if covered(entries, rel) {
        let end = choose|end: int| #[trigger] ends_component(rel, end) && entries.contains(rel.take(end));
        assert(rel.take(end).len() == end);
        if end == rel.len() {
            assert(rel.take(end) =~= rel);
        }
    }
    if rel == deleted {
        assert(rel.take(rel.len() as int) =~= rel);
        assert(ends_component(rel, rel.len() as int));
    }
    if rel.len() > deleted.len() && rel.take(deleted.len() as int) == deleted && rel[deleted.len() as int] == 0x2f {
        assert(ends_component(rel, deleted.len() as int));
    }
}

/// How a byte is written to the log: line ends and backslashes behind a backslash, every
/// other byte as it is.
pub proof fn law_only_line_ends_are_escaped(byte: u8)
    ensures
        escaped_byte(0x0a) == seq![0x5cu8, 0x6eu8],
        escaped_byte(0x0d) == seq![0x5cu8, 0x72u8],
        escaped_byte(0x5c) == seq![0x5cu8, 0x5cu8],
        byte != 0x0a && byte != 0x0d && byte != 0x5c ==> escaped_byte(byte) == seq![byte],
{
}

} // verus!
