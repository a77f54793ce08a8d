//! Registers of a blocked task, for kernels whose notifications are malformed.
//!
//! The filter lets only the native architecture through. A notification of another
//! one is malformed, and is never answered by its own registers: those of the
//! blocked task are read in their place, or the call is refused.

use crate::seccomp::{SeccompData, SeccompNotif};
use crate::text;
use crate::text::{same_text, split_words, strip_text, word_to_i32, word_to_u64};
use vstd::prelude::*;

verus! {

/// The registers of a blocked task.
#[derive(Clone, Copy, Debug)]
pub struct TaskRegisters {
    pub nr: i32,
    pub instruction_pointer: u64,
    pub args: [u64; 6],
}

/// Why registers could not be had.
#[derive(Clone, Copy, Debug, PartialEq, Eq, Structural)]
pub enum RegisterFault {
    /// The task does not sleep yet.
    Running,
    /// The kernel does not tell the registers as it should.
    Invalid,
    /// The notification is gone, or the registers could not be read.
    Failed,
}

pub const RUNNING: &'static str = "running";

pub const HEX_PREFIX: &'static str = "0x";

/// How many words tell the registers of a blocked task: the call, its arguments,
/// the stack pointer and the instruction pointer.
pub const REGISTER_WORDS: usize = 9;

/// The number that a word writes base sixteen.
pub open spec fn hex_word(word: Seq<char>) -> Option<u64> {
    if text::text_starts(word, HEX_PREFIX@) {
        text::u64_word(word.skip(HEX_PREFIX@.len() as int), 16)
    } else {
        None
    }
}

/// Whether words tell the registers of a blocked task.
pub open spec fn tell_registers(words: Seq<Seq<char>>) -> bool {
    &&& words.len() == REGISTER_WORDS
    &&& text::i32_word(words[0]) matches Some(nr) && nr >= 0
    &&& forall|i: int| 1 <= i < REGISTER_WORDS ==> hex_word(#[trigger] words[i]) is Some
}

/// Whether registers are those that words tell.
pub open spec fn are_told(registers: TaskRegisters, words: Seq<Seq<char>>) -> bool {
    &&& Some(registers.nr) == text::i32_word(words[0])
    &&& forall|i: int| 0 <= i < 6 ==> Some(#[trigger] registers.args@[i]) == hex_word(words[i + 1])
    &&& Some(registers.instruction_pointer) == hex_word(words[8])
}

fn read_hex(word: &str) -> (number: Option<u64>)
    ensures
        number == hex_word(word@),
{
    match strip_text(word, HEX_PREFIX) {
        Some(rest) => word_to_u64(rest.as_str(), 16),
        None => None,
    }
}

/// Reads the registers of a blocked task.
pub fn parse_registers(chars: &str) -> (result: Result<TaskRegisters, RegisterFault>)
    ensures
        ({
            let words = text::words(chars@);
            if words == seq![RUNNING@] {
                result == Err::<TaskRegisters, RegisterFault>(RegisterFault::Running)
            } else if tell_registers(words) {
                result matches Ok(registers) && are_told(registers, words)
            } else {
                result == Err::<TaskRegisters, RegisterFault>(RegisterFault::Invalid)
            }
        }),
{
    let words = split_words(chars);
    let ghost told = text::words(chars@);
    proof {
        assert(told.len() == words@.len());
        assert forall|i: int| 0 <= i < told.len() implies #[trigger] told[i] == words@[i]@ by {}
        if told == seq![RUNNING@] {
            assert(told[0] == seq![RUNNING@][0]);
        }
    }
    if words.len() == 1 && same_text(words[0].as_str(), RUNNING) {
        proof {
            assert(told =~= seq![RUNNING@]);
        }
        return Err(RegisterFault::Running);
    }
    if words.len() != REGISTER_WORDS {
        return Err(RegisterFault::Invalid);
    }
    let nr = match word_to_i32(words[0].as_str()) {
        Some(number) => number,
        None => {
            return Err(RegisterFault::Invalid);
        },
    };
    if nr < 0 {
        return Err(RegisterFault::Invalid);
    }
    let mut numbers: Vec<u64> = Vec::new();
    let mut i: usize = 1;
    while i < REGISTER_WORDS
        invariant
            1 <= i <= REGISTER_WORDS,
            told == text::words(chars@),
            told != seq![RUNNING@],
            told.len() == words@.len() == REGISTER_WORDS,
            forall|j: int| 0 <= j < told.len() ==> #[trigger] told[j] == words@[j]@,
            numbers@.len() == i - 1,
            forall|j: int| 0 <= j < i - 1 ==> Some(#[trigger] numbers@[j]) == hex_word(told[j + 1]),
        decreases REGISTER_WORDS - i,
    {
        match read_hex(words[i].as_str()) {
            Some(number) => {
                numbers.push(number);
            },
            None => {
                proof {
                    assert(told[i as int] == words@[i as int]@);
                }
                return Err(RegisterFault::Invalid);
            },
        }
        i = i + 1;
    }
    let args: [u64; 6] = [numbers[0], numbers[1], numbers[2], numbers[3], numbers[4], numbers[5]];
    let registers = TaskRegisters { nr, instruction_pointer: numbers[7], args };
    proof {
        assert forall|j: int| 1 <= j < REGISTER_WORDS implies hex_word(#[trigger] told[j]) is Some by {
            assert(Some(numbers@[j - 1]) == hex_word(told[j - 1 + 1]));
        }
        assert forall|j: int| 0 <= j < 6 implies Some(#[trigger] registers.args@[j]) == hex_word(told[j + 1]) by {
            assert(registers.args@[j] == numbers@[j]);
        }
        assert(Some(numbers@[7]) == hex_word(told[8]));
    }
    Ok(registers)
}

/// How often the registers of a task that does not sleep yet are looked for.
pub const MAX_ATTEMPTS: u32 = 10;

/// What follows an attempt to read registers.
#[derive(Clone, Copy, Debug)]
pub enum MetadataStep {
    /// The notification goes on with these registers.
    Recovered(SeccompNotif),
    /// Wait, and look again.
    Retry,
    /// The call is refused.
    Refuse(RegisterFault),
}

/// Whether a notification cannot be what the filter let through.
pub open spec fn is_malformed(notif: SeccompNotif, native_arch: u32) -> bool {
    notif.data.arch != native_arch || notif.data.nr < 0
}

/// A notification with the registers of its task.
pub open spec fn recovered(notif: SeccompNotif, native_arch: u32, registers: TaskRegisters) -> SeccompNotif {
    SeccompNotif {
        data: SeccompData {
            nr: registers.nr,
            arch: native_arch,
            instruction_pointer: registers.instruction_pointer,
            args: registers.args,
        },
        ..notif
    }
}

/// What follows an attempt to read registers.
pub open spec fn step_after(
    notif: SeccompNotif,
    native_arch: u32,
    attempt: u32,
    read: Result<TaskRegisters, RegisterFault>,
) -> MetadataStep {
    match read {
        Ok(registers) => MetadataStep::Recovered(recovered(notif, native_arch, registers)),
        Err(fault) => if fault == RegisterFault::Running && attempt < MAX_ATTEMPTS - 1 {
            MetadataStep::Retry
        } else {
            MetadataStep::Refuse(fault)
        },
    }
}

/// Decides whether the registers of notifications are to be trusted.
#[derive(Clone, Copy, Debug, PartialEq, Eq, Structural)]
pub struct MetadataReader {
    pub use_proc: bool,
}

impl Default for MetadataReader {
    fn default() -> (reader: MetadataReader)
        ensures
            !reader.use_proc,
    {
        MetadataReader { use_proc: false }
    }
}

impl MetadataReader {
    /// Takes a notification; tells whether the registers of its task are read in
    /// place of its own. After the first malformed one, they always are.
    pub fn take(&mut self, notif: &SeccompNotif, native_arch: u32) -> (reads_task: bool)
        ensures
            final(self).use_proc == (old(self).use_proc || is_malformed(*notif, native_arch)),
            reads_task == final(self).use_proc,
    {
        if notif.data.arch != native_arch || notif.data.nr < 0 {
            self.use_proc = true;
        }
        self.use_proc
    }

    /// What follows an attempt to read the registers of a task.
    pub fn validate(
        &self,
        notif: &SeccompNotif,
        native_arch: u32,
        attempt: u32,
        read: Result<TaskRegisters, RegisterFault>,
    ) -> (step: MetadataStep)
        ensures
            step == step_after(*notif, native_arch, attempt, read),
    {
        match read {
            Ok(registers) => MetadataStep::Recovered(
                SeccompNotif {
                    id: notif.id,
                    pid: notif.pid,
                    flags: notif.flags,
                    data: SeccompData {
                        nr: registers.nr,
                        arch: native_arch,
                        instruction_pointer: registers.instruction_pointer,
                        args: registers.args,
                    },
                },
            ),
            Err(fault) => {
                if fault == RegisterFault::Running && attempt < MAX_ATTEMPTS - 1 {
                    MetadataStep::Retry
                } else {
                    MetadataStep::Refuse(fault)
                }
            },
        }
    }
}

/// A notification goes on only with registers that were read and that are well
/// formed: registers that could not be had refuse the call, in the last attempt
/// even where the task has not slept yet.
pub proof fn law_malformed_calls_never_continue_unread(
    notif: SeccompNotif,
    native_arch: u32,
    attempt: u32,
    read: Result<TaskRegisters, RegisterFault>,
)
    ensures
        step_after(notif, native_arch, attempt, read) matches MetadataStep::Recovered(next) ==> {
            &&& read matches Ok(registers) && next == recovered(notif, native_arch, registers)
            &&& next.data.arch == native_arch && next.id == notif.id && next.pid == notif.pid
        },
        read is Err && attempt >= MAX_ATTEMPTS - 1 ==> step_after(notif, native_arch, attempt, read) is Refuse,
{
}

/// Registers are told by nine words: the number of the call, which is not negative, its six
/// arguments in their order, the stack pointer and the instruction pointer, all but the
/// first as hexadecimal numbers behind `0x`.
pub proof fn law_registers_are_told_in_order(words: Seq<Seq<char>>, registers: TaskRegisters)
    requires
        tell_registers(words),
        are_told(registers, words),
    ensures
        words.len() == 9,
        registers.nr >= 0,
        text::i32_word(words[0]) == Some(registers.nr),
        forall|i: int|
            1 <= i < 9 ==> text::text_starts(#[trigger] words[i], "0x"@) && text::u64_word(
                words[i].skip("0x"@.len() as int),
                16,
            ) is Some,
        text::u64_word(words[1].skip("0x"@.len() as int), 16) == Some(registers.args@[0]),
        text::u64_word(words[2].skip("0x"@.len() as int), 16) == Some(registers.args@[1]),
        text::u64_word(words[3].skip("0x"@.len() as int), 16) == Some(registers.args@[2]),
        text::u64_word(words[4].skip("0x"@.len() as int), 16) == Some(registers.args@[3]),
        text::u64_word(words[5].skip("0x"@.len() as int), 16) == Some(registers.args@[4]),
        text::u64_word(words[6].skip("0x"@.len() as int), 16) == Some(registers.args@[5]),
        text::u64_word(words[8].skip("0x"@.len() as int), 16) == Some(registers.instruction_pointer),
{
    assert(hex_word(words[1]) is Some && hex_word(words[2]) is Some && hex_word(words[3]) is Some);
    assert(hex_word(words[4]) is Some && hex_word(words[5]) is Some && hex_word(words[6]) is Some);
    assert(hex_word(words[8]) is Some);
    assert(registers.args@[0] == registers.args@[0] && registers.args@[1] == registers.args@[1]);
    assert(registers.args@[2] == registers.args@[2] && registers.args@[3] == registers.args@[3]);
    assert(registers.args@[4] == registers.args@[4] && registers.args@[5] == registers.args@[5]);
    assert forall|i: int| 1 <= i < 9 implies text::text_starts(#[trigger] words[i], "0x"@) && text::u64_word(
        words[i].skip("0x"@.len() as int),
        16,
    ) is Some by {
        assert(hex_word(words[i]) is Some);
    }
}

/// A call is malformed exactly where it is of another architecture or has a negative number.
/// A task that still runs is looked at again, nine times at most; every other fault refuses
/// the call; and registers that were read replace those of the notification, under the same
/// identity.
pub proof fn law_malformed_calls_are_read_again(
    notif: SeccompNotif,
    native_arch: u32,
    attempt: u32,
    registers: TaskRegisters,
    fault: RegisterFault,
)
    ensures
        is_malformed(notif, native_arch) <==> notif.data.arch != native_arch || notif.data.nr < 0,
        step_after(notif, native_arch, attempt, Err(fault)) is Retry <==> fault is Running && attempt < 9,
        !(step_after(notif, native_arch, attempt, Err(fault)) is Retry) ==> step_after(
            notif,
            native_arch,
            attempt,
            Err(fault),
        ) == MetadataStep::Refuse(fault),
        step_after(notif, native_arch, attempt, Ok(registers)) matches MetadataStep::Recovered(next) && next.id == notif.id
            && next.pid == notif.pid && next.flags == notif.flags && next.data.nr == registers.nr && next.data.args
            == registers.args && next.data.instruction_pointer == registers.instruction_pointer && next.data.arch
            == native_arch,
{
}

} // verus!
