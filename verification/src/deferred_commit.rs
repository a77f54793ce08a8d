//! The control protocol of a deferred commit: a status line that says how the
//! command ended, then a decision on what becomes of its changes.

use crate::path::{append_bytes, copy_bytes};
use crate::run::{ExitStatus, RunResult};
use crate::text;
use crate::text::{same_text, signed_decimal, split_words};
use vstd::prelude::*;
use vstd::string::*;

verus! {

/// What becomes of the changes.
#[derive(Clone, Copy, Debug, PartialEq, Eq, Structural)]
pub enum Decision {
    Commit,
    Abort,
}

/// What can go wrong with the protocol.
#[derive(Clone, Copy, Debug, PartialEq, Eq, Structural)]
pub enum ControlFault {
    /// The descriptor for decisions is one of the standard ones.
    DecisionFd,
    /// The descriptor for the status is one of the standard ones.
    StatusFd,
    /// One descriptor is to serve for both.
    SameFd,
    /// The decision was not made before the input ended.
    EndOfInput,
    /// The decision is no decision.
    InvalidDecision,
}

/// The least descriptor that is not a standard one.
pub const FIRST_FREE_FD: i32 = 3;

/// The endpoints of the protocol.
#[derive(Clone, Copy, Debug, PartialEq, Eq, Structural)]
pub struct Control {
    pub decision_fd: i32,
    pub status_fd: i32,
}

impl Control {
    /// Takes the two descriptors of the protocol.
    pub fn open(decision_fd: i32, status_fd: i32) -> (result: Result<Control, ControlFault>)
        ensures
            result == if decision_fd < FIRST_FREE_FD {
                Err::<Control, ControlFault>(ControlFault::DecisionFd)
            } else if status_fd < FIRST_FREE_FD {
                Err::<Control, ControlFault>(ControlFault::StatusFd)
            } else if decision_fd == status_fd {
                Err::<Control, ControlFault>(ControlFault::SameFd)
            } else {
                Ok::<Control, ControlFault>(Control { decision_fd, status_fd })
            },
    {
        if decision_fd < FIRST_FREE_FD {
            return Err(ControlFault::DecisionFd);
        }
        if status_fd < FIRST_FREE_FD {
            return Err(ControlFault::StatusFd);
        }
        if decision_fd == status_fd {
            return Err(ControlFault::SameFd);
        }
        Ok(Control { decision_fd, status_fd })
    }
}

pub const COMMIT: &'static str = "commit";

pub const ABORT: &'static str = "abort";

/// The decision that a line makes. A line without characters is the end of the
/// input; white space around the word does not count.
pub open spec fn decision_of(line: Seq<char>) -> Result<Decision, ControlFault> {
    if line.len() == 0 {
        Err(ControlFault::EndOfInput)
    } else if text::words(line) == seq![COMMIT@] {
        Ok(Decision::Commit)
    } else if text::words(line) == seq![ABORT@] {
        Ok(Decision::Abort)
    } else {
        Err(ControlFault::InvalidDecision)
    }
}

/// Reads the decision that a line makes.
pub fn read_decision(line: &str) -> (result: Result<Decision, ControlFault>)
    ensures
        result == decision_of(line@),
{
    if line.unicode_len() == 0 {
        return Err(ControlFault::EndOfInput);
    }
    let words = split_words(line);
    let ghost told = text::words(line@);
    proof {
        assert(told.len() == words@.len());
    }
    if words.len() != 1 {
        return Err(ControlFault::InvalidDecision);
    }
    proof {
        assert(told[0] == words@[0]@);
        assert(told =~= seq![told[0]]);
        if told == seq![COMMIT@] {
            assert(told[0] == seq![COMMIT@][0]);
        }
        if told == seq![ABORT@] {
            assert(told[0] == seq![ABORT@][0]);
        }
    }
    if same_text(words[0].as_str(), COMMIT) {
        Ok(Decision::Commit)
    } else if same_text(words[0].as_str(), ABORT) {
        Ok(Decision::Abort)
    } else {
        Err(ControlFault::InvalidDecision)
    }
}

/// The exit code and the signal that are told of a command.
pub open spec fn parts_of(status: ExitStatus) -> (i32, Option<i32>) {
    match status {
        ExitStatus::Code(code) => (code, None),
        ExitStatus::Signal(signal) => ((-1) as i32, Some(signal)),
        ExitStatus::Killed | ExitStatus::Timeout => ((-1) as i32, None),
    }
}

/// Tells the exit code and the signal of a command.
pub fn exit_parts(result: &RunResult) -> (parts: (i32, Option<i32>))
    ensures
        parts == parts_of(result.exit_status),
{
    match result.exit_status {
        ExitStatus::Code(code) => (code, None),
        ExitStatus::Signal(signal) => (-1, Some(signal)),
        ExitStatus::Killed | ExitStatus::Timeout => (-1, None),
    }
}

pub const STATUS_START: &'static str = "{";

pub const STATUS_STATE: &'static str = "\"state\":";

pub const STATUS_NEXT: &'static str = ",";

pub const STATUS_EXIT_CODE: &'static str = "\"exit_code\":";

pub const STATUS_SIGNAL: &'static str = ",\"signal\":";

pub const STATUS_END: &'static str = "}\n";

/// The state of a command whose changes wait for a decision.
pub const PENDING: &'static str = "pending";

/// What `serde_json::to_string` makes of a text.
pub uninterp spec fn json_of(text: Seq<char>) -> Seq<u8>;

/// Whether a text stands in JSON as it is: it holds neither quotes nor backslashes nor
/// control characters.
pub open spec fn is_plain(text: Seq<char>) -> bool {
    forall|i: int| 0 <= i < text.len() ==> ' ' <= #[trigger] text[i] && text[i] != '"' && text[i] != '\\'
}

/// A text as a JSON string, by `serde_json::to_string`, which never fails on a text: it
/// only writes to memory. A plain text stands between quotes as it is; how other
/// characters are escaped is left to the crate.
#[verifier::external_body]
fn write_json(text: &str) -> (json: Vec<u8>)
    ensures
        json@ == json_of(text@),
        is_plain(text@) ==> json@ == seq![0x22u8] + text.spec_bytes() + seq![0x22u8],
{
    serde_json::to_string(text).unwrap().into_bytes()
}

/// The status line of a command: one JSON object, with the state only where one
/// is told, in JSON, and with the signal only where one ended the command.
pub open spec fn status_text(status: ExitStatus, state: Option<Seq<u8>>) -> Seq<u8> {
    let (code, signal) = parts_of(status);
    STATUS_START.spec_bytes() + (match state {
        Some(told) => STATUS_STATE.spec_bytes() + told + STATUS_NEXT.spec_bytes(),
        None => Seq::empty(),
    }) + STATUS_EXIT_CODE.spec_bytes() + text::signed_digits(code as int) + (match signal {
        Some(number) => STATUS_SIGNAL.spec_bytes() + text::signed_digits(number as int),
        None => Seq::empty(),
    }) + STATUS_END.spec_bytes()
}

/// Writes the status line of a command, with its state as a JSON string.
pub fn write_status(result: &RunResult, state: Option<&str>) -> (line: Vec<u8>)
    ensures
        line@ == status_text(
            result.exit_status,
            match state {
                Some(told) => Some(json_of(told@)),
                None => None,
            },
        ),
        (state matches Some(told) && is_plain(told@)) ==> line@ == status_text(
            result.exit_status,
            Some(seq![0x22u8] + state->0.spec_bytes() + seq![0x22u8]),
        ),
{
    match state {
        Some(told) => status_line(result, Some(write_json(told).as_slice())),
        None => status_line(result, None),
    }
}

/// Writes the status line of a command, from its state in JSON.
pub fn status_line(result: &RunResult, state: Option<&[u8]>) -> (line: Vec<u8>)
    ensures
        line@ == status_text(
            result.exit_status,
            match state {
                Some(json) => Some(json@),
                None => None,
            },
        ),
{
    let (code, signal) = exit_parts(result);
    let mut line = copy_bytes(STATUS_START.as_bytes());
    match state {
        Some(json) => {
            let ghost before = line@;
            append_bytes(&mut line, STATUS_STATE.as_bytes());
            append_bytes(&mut line, json);
            append_bytes(&mut line, STATUS_NEXT.as_bytes());
            proof {
                assert(line@ =~= before + (STATUS_STATE.spec_bytes() + json@ + STATUS_NEXT.spec_bytes()));
            }
        },
        None => {
            proof {
                assert(line@ + Seq::<u8>::empty() =~= line@);
            }
        },
    }
    append_bytes(&mut line, STATUS_EXIT_CODE.as_bytes());
    append_bytes(&mut line, signed_decimal(code).as_slice());
    match signal {
        Some(number) => {
            let ghost before = line@;
            append_bytes(&mut line, STATUS_SIGNAL.as_bytes());
            append_bytes(&mut line, signed_decimal(number).as_slice());
            proof {
                assert(line@ =~= before + (STATUS_SIGNAL.spec_bytes() + text::signed_digits(number as int)));
            }
        },
        None => {
            proof {
                assert(line@ + Seq::<u8>::empty() =~= line@);
            }
        },
    }
    append_bytes(&mut line, STATUS_END.as_bytes());
    line
}

/// A line decides for a commit exactly where its only word is `commit`, and for an abort
/// exactly where its only word is `abort`; the end of the input decides nothing, nor does
/// any other line.
pub proof fn law_decisions_are_one_word(line: Seq<char>)
    ensures
        decision_of(line) == Ok::<Decision, ControlFault>(Decision::Commit) <==> line.len() > 0 && text::words(line)
            == seq![seq!['c', 'o', 'm', 'm', 'i', 't']],
        decision_of(line) == Ok::<Decision, ControlFault>(Decision::Abort) <==> line.len() > 0 && text::words(line)
            == seq![seq!['a', 'b', 'o', 'r', 't']],
        decision_of(line) == Err::<Decision, ControlFault>(ControlFault::EndOfInput) <==> line.len() == 0,
        decision_of(line) is Err ==> decision_of(line)->Err_0 is EndOfInput || decision_of(line)->Err_0
            is InvalidDecision,
{
    reveal_strlit("commit");
    reveal_strlit("abort");
    assert(COMMIT@ =~= seq!['c', 'o', 'm', 'm', 'i', 't']);
    assert(ABORT@ =~= seq!['a', 'b', 'o', 'r', 't']);
    assert(seq![COMMIT@][0].len() == 6);
    assert(seq![ABORT@][0].len() == 5);
}

/// The status of a command tells its exit code, or a minus one and the signal that ended
/// it; a command that was killed for a limit has neither.
pub proof fn law_statuses_tell_the_end(code: i32, signal: i32)
    ensures
        parts_of(ExitStatus::Code(code)) == (code, None::<i32>),
        parts_of(ExitStatus::Signal(signal)).1 == Some(signal),
        parts_of(ExitStatus::Signal(signal)).0 == -1,
        parts_of(ExitStatus::Killed) == parts_of(ExitStatus::Timeout),
        parts_of(ExitStatus::Killed).0 == -1,
        parts_of(ExitStatus::Killed).1 is None,
{
}

/// A status line is one JSON object: the state first, where one is told, then the exit
/// code, then the signal, where one ended the command.
pub proof fn law_status_lines_are_objects(code: i32, signal: i32, state: Seq<u8>)
    ensures
        status_text(ExitStatus::Code(code), None) == "{".spec_bytes() + "\"exit_code\":".spec_bytes()
            + text::signed_digits(code as int) + "}\n".spec_bytes(),
        status_text(ExitStatus::Signal(signal), None) == "{".spec_bytes() + "\"exit_code\":".spec_bytes()
            + text::signed_digits(-1) + ",\"signal\":".spec_bytes() + text::signed_digits(signal as int)
            + "}\n".spec_bytes(),
        status_text(ExitStatus::Code(code), Some(state)) == "{".spec_bytes() + "\"state\":".spec_bytes() + state
            + ",".spec_bytes() + "\"exit_code\":".spec_bytes() + text::signed_digits(code as int)
            + "}\n".spec_bytes(),
{
    let head = "{".spec_bytes();
    let key = "\"exit_code\":".spec_bytes();
    let end = "}\n".spec_bytes();
    let digits = text::signed_digits(code as int);
    assert(head + Seq::<u8>::empty() + key + digits + Seq::<u8>::empty() + end =~= head + key + digits + end);
    let minus = text::signed_digits(-1);
    let by = ",\"signal\":".spec_bytes();
    let told = text::signed_digits(signal as int);
    assert(head + Seq::<u8>::empty() + key + minus + (by + told) + end =~= head + key + minus + by + told + end);
    let named = "\"state\":".spec_bytes();
    let next = ",".spec_bytes();
    assert(head + (named + state + next) + key + digits + Seq::<u8>::empty() + end =~= head + named + state + next + key
        + digits + end);
}

} // verus!
