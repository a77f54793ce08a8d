//! What the kernel tells of a task: its `stat` and `status` files.

use crate::text;
use crate::text::{split_last, split_lines, split_words, strip_text, word_to_i32, word_to_u64};
use vstd::prelude::*;
use vstd::string::*;

verus! {

/// What counts of the `stat` file of a task.
#[derive(Clone, Copy, Debug, PartialEq, Eq, Structural)]
pub struct TaskStat {
    /// The first byte of its state.
    pub state: u8,
    pub session: i32,
    /// When the task was started.
    pub start: u64,
}

pub const NAME_END: &'static str = ")";

pub const NAME_END_SPACE: &'static str = ") ";

pub const TGID: &'static str = "Tgid:";

/// The place of the session among the fields behind the name.
pub const SESSION_FIELD: usize = 3;

/// The place of the start time among the fields behind the name.
pub const START_FIELD: usize = 19;

/// What fields behind the name of a task say.
pub open spec fn stat_of_fields(fields: Seq<Seq<char>>) -> Option<TaskStat> {
    if fields.len() <= START_FIELD || vstd::utf8::encode_utf8(fields[0]).len() == 0 {
        None
    } else {
        match (text::i32_word(fields[SESSION_FIELD as int]), text::u64_word(fields[START_FIELD as int], 10)) {
            (Some(session), Some(start)) => Some(
                TaskStat { state: vstd::utf8::encode_utf8(fields[0])[0], session, start },
            ),
            _ => None,
        }
    }
}

/// What the `stat` file of a task says. Its name may hold anything, so the fields
/// are counted from the last bracket on.
pub open spec fn stat_of(stat: Seq<char>) -> Option<TaskStat> {
    match text::behind_last(stat, NAME_END@) {
        Some(rest) => stat_of_fields(text::words(rest)),
        None => None,
    }
}

/// Reads the `stat` file of a task.
pub fn read_stat(stat: &str) -> (result: Option<TaskStat>)
    ensures
        result == stat_of(stat@),
{
    match split_last(stat, NAME_END) {
        None => None,
        Some(rest) => {
            let fields = split_words(rest.as_str());
            let ghost told = text::words(rest@);
            proof {
                assert(told.len() == fields@.len());
            }
            if fields.len() <= START_FIELD {
                return None;
            }
            proof {
                assert(told[0] == fields@[0]@);
                assert(told[SESSION_FIELD as int] == fields@[SESSION_FIELD as int]@);
                assert(told[START_FIELD as int] == fields@[START_FIELD as int]@);
            }
            let state = fields[0].as_str().as_bytes();
            if state.len() == 0 {
                return None;
            }
            match (word_to_i32(fields[SESSION_FIELD].as_str()), word_to_u64(fields[START_FIELD].as_str(), 10)) {
                (Some(session), Some(start)) => Some(TaskStat { state: state[0], session, start }),
                _ => None,
            }
        },
    }
}

/// The field at a place behind the name of a task.
pub open spec fn stat_field(stat: Seq<char>, place: int) -> Option<Seq<char>> {
    match text::behind_last(stat, NAME_END_SPACE@) {
        Some(rest) => if place < text::words(rest).len() {
            Some(text::words(rest)[place])
        } else {
            None
        },
        None => None,
    }
}

fn field_at(stat: &str, place: usize) -> (field: Option<String>)
    ensures
        match field {
            Some(word) => stat_field(stat@, place as int) == Some(word@),
            None => stat_field(stat@, place as int) is None,
        },
{
    match split_last(stat, NAME_END_SPACE) {
        None => None,
        Some(rest) => {
            let fields = split_words(rest.as_str());
            proof {
                assert(text::words(rest@).len() == fields@.len());
            }
            if place >= fields.len() {
                return None;
            }
            proof {
                assert(text::words(rest@)[place as int] == fields@[place as int]@);
            }
            Some(text::copy_text(fields[place].as_str()))
        },
    }
}

/// The parent that the `stat` file of a process names.
pub open spec fn parent_of(stat: Seq<char>) -> Option<i32> {
    match stat_field(stat, 1) {
        Some(field) => text::i32_word(field),
        None => None,
    }
}

/// Reads the parent of a process out of its `stat` file.
pub fn read_ppid(stat: &str) -> (parent: Option<i32>)
    ensures
        parent == parent_of(stat@),
{
    match field_at(stat, 1) {
        Some(field) => word_to_i32(field.as_str()),
        None => None,
    }
}

/// The start time that the `stat` file of a process names.
pub open spec fn start_time_of(stat: Seq<char>) -> Option<u64> {
    match stat_field(stat, START_FIELD as int) {
        Some(field) => text::u64_word(field, 10),
        None => None,
    }
}

/// Reads the start time of a process out of its `stat` file.
pub fn read_pid_start_time(stat: &str) -> (start: Option<u64>)
    ensures
        start == start_time_of(stat@),
{
    match field_at(stat, START_FIELD) {
        Some(field) => word_to_u64(field.as_str(), 10),
        None => None,
    }
}

/// The only word of a text as a number.
pub open spec fn lone_number(chars: Seq<char>) -> Option<i32> {
    if text::words(chars).len() == 1 {
        text::i32_word(text::words(chars)[0])
    } else {
        None
    }
}

fn read_lone_number(chars: &str) -> (number: Option<i32>)
    ensures
        number == lone_number(chars@),
{
    let words = split_words(chars);
    proof {
        assert(text::words(chars@).len() == words@.len());
    }
    if words.len() != 1 {
        return None;
    }
    proof {
        assert(text::words(chars@)[0] == words@[0]@);
    }
    word_to_i32(words[0].as_str())
}

/// Whether a line names the thread group.
pub open spec fn names_tgid(line: Seq<char>) -> bool {
    text::text_starts(line, TGID@)
}

/// The thread group that a line names.
pub open spec fn tgid_in(line: Seq<char>) -> Option<i32> {
    lone_number(line.skip(TGID@.len() as int))
}

/// The thread group that the first such line names.
pub open spec fn first_tgid(lines: Seq<Seq<char>>, from: int) -> Option<i32>
    decreases lines.len() - from,
{
    if from < 0 || from >= lines.len() {
        None
    } else if names_tgid(lines[from]) {
        tgid_in(lines[from])
    } else {
        first_tgid(lines, from + 1)
    }
}

/// Reads the thread group of a task out of its `status` file.
pub fn read_tgid_of_tid(status: &str) -> (tgid: Option<i32>)
    ensures
        tgid == first_tgid(text::lines(status@), 0),
{
    let lines = split_lines(status);
    let ghost told = text::lines(status@);
    let mut i: usize = 0;
    while i < lines.len()
        invariant
            i <= lines@.len(),
            told == text::lines(status@),
            told == text::string_views(lines@),
            first_tgid(told, 0) == first_tgid(told, i as int),
        decreases lines@.len() - i,
    {
        proof {
            assert(told.len() == lines@.len());
            assert(told[i as int] == lines@[i as int]@);
        }
        match strip_text(lines[i].as_str(), TGID) {
            Some(rest) => {
                return read_lone_number(rest.as_str());
            },
            None => {},
        }
        i = i + 1;
    }
    None
}

/// The first thread group that lines name readably.
pub open spec fn readable_tgid(lines: Seq<Seq<char>>, from: int) -> Option<i32>
    decreases lines.len() - from,
{
    if from < 0 || from >= lines.len() {
        None
    } else if names_tgid(lines[from]) && tgid_in(lines[from]) is Some {
        tgid_in(lines[from])
    } else {
        readable_tgid(lines, from + 1)
    }
}

/// What a `status` file says of the thread group; the task itself where it says
/// nothing or could not be read.
pub open spec fn tgid_or_self(status: Option<Seq<char>>, tid: i32) -> i32 {
    match status {
        Some(chars) => match readable_tgid(text::lines(chars), 0) {
            Some(tgid) => tgid,
            None => tid,
        },
        None => tid,
    }
}

/// What an optional string says.
pub open spec fn optional_text(string: Option<String>) -> Option<Seq<char>> {
    match string {
        Some(known) => Some(known@),
        None => None,
    }
}

/// The thread group of a task; the task itself where it cannot be told.
pub fn tgid_of(status: &Option<String>, tid: i32) -> (tgid: i32)
    ensures
        tgid == tgid_or_self(optional_text(*status), tid),
{
    match status {
        None => tid,
        Some(known) => {
            let lines = split_lines(known.as_str());
            let ghost told = text::lines(known@);
            let mut i: usize = 0;
            while i < lines.len()
                invariant
                    i <= lines@.len(),
                    *status == Some(*known),
                    told == text::lines(known@),
                    told == text::string_views(lines@),
                    readable_tgid(told, 0) == readable_tgid(told, i as int),
                decreases lines@.len() - i,
            {
                proof {
                    assert(told.len() == lines@.len());
                    assert(told[i as int] == lines@[i as int]@);
                }
                match strip_text(lines[i].as_str(), TGID) {
                    Some(rest) => match read_lone_number(rest.as_str()) {
                        Some(tgid) => {
                            return tgid;
                        },
                        None => {},
                    },
                    None => {},
                }
                i = i + 1;
            }
            tid
        },
    }
}

/// The fields of a task are read behind the last parenthesis, so that no name of a program
/// can pass for them: the state comes first, the parent second, the session fourth and the
/// time of the start twentieth.
pub proof fn law_names_do_not_pass_for_fields(head: Seq<char>, rest: Seq<char>)
    requires
        forall|i: int| 0 <= i < rest.len() ==> #[trigger] rest[i] != ')',
    ensures
        stat_of(head.push(')') + rest) == stat_of_fields(text::words(rest)),
        stat_of(rest) is None,
{
    reveal_strlit(")");
    let pattern = ")"@;
    assert(pattern =~= seq![')']);
    let all = head.push(')') + rest;
    text::law_last_places_are_last(all, pattern);
    text::law_last_places_are_last(rest, pattern);
    let n = head.len() as int;
    assert(all.subrange(n, n + 1) =~= pattern);
    assert(text::has_at(all, pattern, n));
    assert(all.skip(n + 1) =~= rest);
    if let Some(found) = text::behind_last(all, pattern) {
        let at = all.len() - found.len() - 1;
        assert(text::has_at(all, pattern, at));
        if at > n {
            assert(all.subrange(at, at + 1)[0] == ')');
            assert(all[at] == rest[at - n - 1]);
        }
        assert(at == n);
    }
    if let Some(found) = text::behind_last(rest, pattern) {
        let at = rest.len() - found.len() - 1;
        assert(text::has_at(rest, pattern, at));
        assert(rest.subrange(at, at + 1)[0] == ')');
        assert(rest[at] == ')');
    }
}

/// The fields that are read: the first byte of the state, the session and the start, where
/// both are numbers.
pub proof fn law_fields_are_read_by_their_place(fields: Seq<Seq<char>>)
    ensures
        stat_of_fields(fields) matches Some(stat) ==> fields.len() >= 20 && text::i32_word(fields[3]) == Some(stat.session)
            && text::u64_word(fields[19], 10) == Some(stat.start) && vstd::utf8::encode_utf8(fields[0]).len() > 0
            && stat.state == vstd::utf8::encode_utf8(fields[0])[0],
        fields.len() < 20 ==> stat_of_fields(fields) is None,
        fields.len() >= 20 && vstd::utf8::encode_utf8(fields[0]).len() > 0 && text::i32_word(fields[3]) is Some
            && text::u64_word(fields[19], 10) is Some ==> stat_of_fields(fields) is Some,
{
}

/// The parent of a task is its second field, and the time of its start its twentieth.
pub proof fn law_parents_and_starts_are_fields(stat: Seq<char>, rest: Seq<char>)
    requires
        text::behind_last(stat, ") "@) == Some(rest),
    ensures
        text::words(rest).len() >= 2 ==> parent_of(stat) == text::i32_word(text::words(rest)[1]),
        text::words(rest).len() < 2 ==> parent_of(stat) is None,
        text::words(rest).len() >= 20 ==> start_time_of(stat) == text::u64_word(text::words(rest)[19], 10),
        text::words(rest).len() < 20 ==> start_time_of(stat) is None,
{
}

proof fn lemma_first_tgid(lines: Seq<Seq<char>>, from: int, at: int)
    requires
        0 <= from <= at < lines.len(),
        forall|i: int| from <= i < at ==> !text::text_starts(#[trigger] lines[i], "Tgid:"@),
        text::text_starts(lines[at], "Tgid:"@),
    ensures
        first_tgid(lines, from) == lone_number(lines[at].skip("Tgid:"@.len() as int)),
        lone_number(lines[at].skip("Tgid:"@.len() as int)) is Some ==> readable_tgid(lines, from) == lone_number(
            lines[at].skip("Tgid:"@.len() as int),
        ),
    decreases at - from,
{
    if from < at {
        assert(!text::text_starts(lines[from], "Tgid:"@));
        lemma_first_tgid(lines, from + 1, at);
    }
}

proof fn lemma_no_tgid(lines: Seq<Seq<char>>, from: int)
    requires
        0 <= from <= lines.len(),
        forall|i: int| from <= i < lines.len() ==> !text::text_starts(#[trigger] lines[i], "Tgid:"@),
    ensures
        first_tgid(lines, from) is None,
        readable_tgid(lines, from) is None,
    decreases lines.len() - from,
{
    if from < lines.len() {
        assert(!text::text_starts(lines[from], "Tgid:"@));
        lemma_no_tgid(lines, from + 1);
    }
}

/// The thread group is told by the first line that names it, as the only number behind the
/// name; a task whose status cannot be read, or names none, counts as its own.
pub proof fn law_groups_are_told_by_their_line(chars: Seq<char>, tid: i32, at: int)
    ensures
        tgid_or_self(None, tid) == tid,
        ({
            let lines = text::lines(chars);
            let told = lone_number(lines[at].skip("Tgid:"@.len() as int));
            &&& 0 <= at < lines.len() && text::text_starts(lines[at], "Tgid:"@) && (forall|i: int|
                0 <= i < at ==> !text::text_starts(#[trigger] lines[i], "Tgid:"@)) ==> first_tgid(lines, 0) == told && (
            told matches Some(tgid) ==> tgid_or_self(Some(chars), tid) == tgid)
            &&& (forall|i: int| 0 <= i < lines.len() ==> !text::text_starts(#[trigger] lines[i], "Tgid:"@)) ==> first_tgid(
                lines,
                0,
            ) is None && tgid_or_self(Some(chars), tid) == tid
        }),
{
    let lines = text::lines(chars);
    if 0 <= at < lines.len() && text::text_starts(lines[at], "Tgid:"@) && (forall|i: int|
        0 <= i < at ==> !text::text_starts(#[trigger] lines[i], "Tgid:"@)) {
        lemma_first_tgid(lines, 0, at);
    }
    if forall|i: int| 0 <= i < lines.len() ==> !text::text_starts(#[trigger] lines[i], "Tgid:"@) {
        lemma_no_tgid(lines, 0);
    }
}

/// A lone number is told where there is one word alone.
pub proof fn law_lone_numbers_stand_alone(chars: Seq<char>)
    ensures
        lone_number(chars) matches Some(number) ==> text::words(chars).len() == 1 && text::i32_word(text::words(chars)[0])
            == Some(number),
        text::words(chars).len() != 1 ==> lone_number(chars) is None,
        text::words(chars).len() == 1 ==> lone_number(chars) == text::i32_word(text::words(chars)[0]),
{
}

} // verus!
