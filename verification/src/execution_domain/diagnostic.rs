//! What is told of a session that did not end in time.

use crate::path::append_bytes;
use crate::text;
use crate::text::{decimal, signed_decimal, split_lines, strip_text};
use vstd::prelude::*;
use vstd::string::*;

verus! {

/// How long a diagnosis may get before no more is added.
pub const MAX_DIAGNOSTIC_BYTES: usize = 4096;

pub const SESSION: &'static str = "sid=";

pub const ACTIVE: &'static str = " active=";

pub const HELD: &'static str = " held=";

pub const STATE_LINE: &'static str = "State:";

pub const TRACER_LINE: &'static str = "TracerPid:";

/// What is told at first: the session, and what its gate does.
pub open spec fn diagnostic_head(session_id: i32, active: int, held: int) -> Seq<u8> {
    SESSION.spec_bytes() + text::signed_digits(session_id as int) + ACTIVE.spec_bytes() + text::decimal_digits(active)
        + HELD.spec_bytes() + text::decimal_digits(held)
}

/// Starts a diagnosis.
pub fn start_diagnostic(session_id: i32, active: usize, held: usize) -> (bytes: Vec<u8>)
    ensures
        bytes@ == diagnostic_head(session_id, active as int, held as int),
{
    let mut bytes = crate::path::copy_bytes(SESSION.as_bytes());
    let number = signed_decimal(session_id);
    append_bytes(&mut bytes, number.as_slice());
    append_bytes(&mut bytes, ACTIVE.as_bytes());
    let number = decimal(active as u64);
    append_bytes(&mut bytes, number.as_slice());
    append_bytes(&mut bytes, HELD.as_bytes());
    let number = decimal(held as u64);
    append_bytes(&mut bytes, number.as_slice());
    bytes
}

/// Whether a line of a `status` file is told.
pub open spec fn is_told(line: Seq<char>) -> bool {
    text::text_starts(line, STATE_LINE@) || text::text_starts(line, TRACER_LINE@)
}

/// The lines that are told, with blanks between them.
pub open spec fn told_lines(lines: Seq<Seq<char>>) -> Seq<u8>
    decreases lines.len(),
{
    if lines.len() == 0 {
        Seq::empty()
    } else {
        let before = told_lines(lines.drop_last());
        if !is_told(lines.last()) {
            before
        } else if before.len() == 0 {
            vstd::utf8::encode_utf8(lines.last())
        } else {
            before.push(0x20) + vstd::utf8::encode_utf8(lines.last())
        }
    }
}

/// What is told of a task.
pub open spec fn task_note(name: Seq<u8>, status: Seq<char>) -> Seq<u8> {
    (seq![0x20u8, 0x5bu8] + name).push(0x20) + told_lines(text::lines(status)).push(0x5d)
}

/// Adds what is told of a task, unless the diagnosis is long enough; tells whether
/// it was added.
pub fn add_task(bytes: &mut Vec<u8>, name: &[u8], status: &str) -> (added: bool)
    ensures
        added == (old(bytes)@.len() <= MAX_DIAGNOSTIC_BYTES),
        final(bytes)@ == if added {
            old(bytes)@ + task_note(name@, status@)
        } else {
            old(bytes)@
        },
{
    if bytes.len() > MAX_DIAGNOSTIC_BYTES {
        return false;
    }
    let ghost start = bytes@;
    let lines = split_lines(status);
    let ghost told = text::lines(status@);
    let mut shown: Vec<u8> = Vec::new();
    let mut i: usize = 0;
    proof {
        assert(told.take(0) =~= Seq::<Seq<char>>::empty());
    }
    while i < lines.len()
        invariant
            i <= lines@.len(),
            told == text::string_views(lines@),
            shown@ == told_lines(told.take(i as int)),
        decreases lines@.len() - i,
    {
        let line = lines[i].as_str();
        proof {
            assert(told[i as int] == lines@[i as int]@);
            assert(told.take(i as int + 1).drop_last() =~= told.take(i as int));
            assert(told.take(i as int + 1).last() == told[i as int]);
        }
        if strip_text(line, STATE_LINE).is_some() || strip_text(line, TRACER_LINE).is_some() {
            if shown.len() > 0 {
                shown.push(0x20);
            }
            let ghost before = shown@;
            append_bytes(&mut shown, line.as_bytes());
            proof {
                if before.len() == 0 {
                    assert(before + vstd::utf8::encode_utf8(line@) =~= vstd::utf8::encode_utf8(line@));
                }
            }
        }
        i = i + 1;
    }
    proof {
        assert(told.take(i as int) =~= told);
    }
    bytes.push(0x20);
    bytes.push(0x5b);
    append_bytes(bytes, name);
    bytes.push(0x20);
    append_bytes(bytes, shown.as_slice());
    bytes.push(0x5d);
    proof {
        assert(bytes@ =~= start + task_note(name@, status@));
    }
    true
}

/// A diagnosis begins with the session, the running calls and the held ones.
pub proof fn law_diagnoses_begin_with_the_session(session_id: i32, active: int, held: int)
    ensures
        diagnostic_head(session_id, active, held) == "sid=".spec_bytes() + text::signed_digits(session_id as int)
            + " active=".spec_bytes() + text::decimal_digits(active) + " held=".spec_bytes() + text::decimal_digits(held),
{
}

/// Of a task its state and its tracer are told, in the order of their lines, between
/// brackets behind its name, and nothing else.
pub proof fn law_states_and_tracers_are_told(name: Seq<u8>, status: Seq<char>, lines: Seq<Seq<char>>, line: Seq<char>)
    ensures
        is_told(line) <==> text::text_starts(line, "State:"@) || text::text_starts(line, "TracerPid:"@),
        !is_told(line) ==> told_lines(lines.push(line)) == told_lines(lines),
        is_told(line) ==> told_lines(seq![line]) == vstd::utf8::encode_utf8(line),
        is_told(line) && told_lines(lines).len() > 0 ==> told_lines(lines.push(line)) == told_lines(lines) + seq![0x20u8]
            + vstd::utf8::encode_utf8(line),
        task_note(name, status) == seq![0x20u8, 0x5bu8] + name + seq![0x20u8] + told_lines(text::lines(status)) + seq![
            0x5du8,
        ],
{
    assert(lines.push(line).drop_last() =~= lines);
    assert(seq![line].drop_last() =~= Seq::<Seq<char>>::empty());
    assert(told_lines(Seq::<Seq<char>>::empty()) =~= Seq::<u8>::empty());
    assert(told_lines(lines).push(0x20) =~= told_lines(lines) + seq![0x20u8]);
    assert(task_note(name, status) =~= seq![0x20u8, 0x5bu8] + name + seq![0x20u8] + told_lines(text::lines(status)) + seq![
        0x5du8,
    ]);
}

} // verus!
