//! The trusted bootstrap inside a new mount namespace: its arguments, the
//! frames that it reads and writes, and the descriptors that it closes.

use crate::path;
use crate::path::{append_bytes, bytes_equal, copy_bytes, holds_byte};
use crate::sys::{EINVAL, O_ACCMODE, S_IFCHR, S_IFMT};
use crate::text;
use crate::text::{is_text, parse_i32};
use vstd::bytes::*;
use vstd::prelude::*;
use vstd::string::*;

verus! {

pub const FILTER_FD: &'static str = "--filter-fd";

pub const CONTROL_FD: &'static str = "--control-fd";

pub const READY_FD: &'static str = "--ready-fd";

pub const EXEC_STATUS_FD: &'static str = "--exec-status-fd";

pub const FOREGROUND: &'static str = "--foreground";

pub const KEEP_FD: &'static str = "--keep-fd";

pub const COMMAND_FOLLOWS: &'static str = "--";

pub const YES: &'static str = "1";

/// What the bootstrap is told.
#[derive(Debug)]
pub struct BootstrapArgs {
    pub filter_fd: i32,
    pub control_fd: i32,
    pub ready_fd: i32,
    pub exec_status_fd: i32,
    pub foreground: bool,
    pub keep_fds: Vec<i32>,
    pub command: Vec<Vec<u8>>,
}

/// What can be wrong with the arguments.
#[derive(Clone, Copy, Debug, PartialEq, Eq, Structural)]
pub enum ArgFault {
    MissingValue,
    UnknownOption,
    /// A descriptor is not valid text.
    NotText,
    /// A descriptor is no number.
    NotNumber,
    EmptyCommand,
    MissingFilterFd,
    MissingControlFd,
    MissingReadyFd,
    MissingExecStatusFd,
}

/// The arguments that were read so far.
#[verifier::ext_equal]
pub struct Reading {
    pub filter_fd: Option<i32>,
    pub control_fd: Option<i32>,
    pub ready_fd: Option<i32>,
    pub exec_status_fd: Option<i32>,
    pub foreground: bool,
    pub keep_fds: Seq<i32>,
    pub command: Seq<Seq<u8>>,
}

/// Before the first argument.
pub open spec fn nothing_read() -> Reading {
    Reading {
        filter_fd: None,
        control_fd: None,
        ready_fd: None,
        exec_status_fd: None,
        foreground: false,
        keep_fds: Seq::empty(),
        command: Seq::empty(),
    }
}

/// The descriptor that an argument names.
pub open spec fn fd_value(value: Seq<u8>) -> Result<i32, ArgFault> {
    if !vstd::utf8::valid_utf8(value) {
        Err(ArgFault::NotText)
    } else {
        match text::signed(value) {
            Some(number) if i32::MIN <= number <= i32::MAX => Ok(number as i32),
            _ => Err(ArgFault::NotNumber),
        }
    }
}

/// What an option with its value adds.
pub open spec fn with_option(state: Reading, option: Seq<u8>, value: Seq<u8>) -> Result<Reading, ArgFault> {
    if option == FILTER_FD.spec_bytes() {
        match fd_value(value) {
            Ok(fd) => Ok(Reading { filter_fd: Some(fd), ..state }),
            Err(fault) => Err(fault),
        }
    } else if option == CONTROL_FD.spec_bytes() {
        match fd_value(value) {
            Ok(fd) => Ok(Reading { control_fd: Some(fd), ..state }),
            Err(fault) => Err(fault),
        }
    } else if option == READY_FD.spec_bytes() {
        match fd_value(value) {
            Ok(fd) => Ok(Reading { ready_fd: Some(fd), ..state }),
            Err(fault) => Err(fault),
        }
    } else if option == EXEC_STATUS_FD.spec_bytes() {
        match fd_value(value) {
            Ok(fd) => Ok(Reading { exec_status_fd: Some(fd), ..state }),
            Err(fault) => Err(fault),
        }
    } else if option == FOREGROUND.spec_bytes() {
        Ok(Reading { foreground: value == YES.spec_bytes(), ..state })
    } else if option == KEEP_FD.spec_bytes() {
        match fd_value(value) {
            Ok(fd) => Ok(Reading { keep_fds: state.keep_fds.push(fd), ..state }),
            Err(fault) => Err(fault),
        }
    } else {
        Err(ArgFault::UnknownOption)
    }
}

/// What the arguments from one on add: options with values, then the command.
pub open spec fn read_from(args: Seq<Seq<u8>>, from: int, state: Reading) -> Result<Reading, ArgFault>
    decreases args.len() - from,
{
    if from < 0 || from >= args.len() {
        Ok(state)
    } else if args[from] == COMMAND_FOLLOWS.spec_bytes() {
        Ok(Reading { command: args.skip(from + 1), ..state })
    } else if from + 1 >= args.len() {
        Err(ArgFault::MissingValue)
    } else {
        match with_option(state, args[from], args[from + 1]) {
            Ok(next) => read_from(args, from + 2, next),
            Err(fault) => Err(fault),
        }
    }
}

/// What is missing from the arguments.
pub open spec fn missing(state: Reading) -> Option<ArgFault> {
    if state.command.len() == 0 {
        Some(ArgFault::EmptyCommand)
    } else if state.filter_fd is None {
        Some(ArgFault::MissingFilterFd)
    } else if state.control_fd is None {
        Some(ArgFault::MissingControlFd)
    } else if state.ready_fd is None {
        Some(ArgFault::MissingReadyFd)
    } else if state.exec_status_fd is None {
        Some(ArgFault::MissingExecStatusFd)
    } else {
        None
    }
}

/// Whether arguments are those that were read.
pub open spec fn are_args(args: BootstrapArgs, state: Reading) -> bool {
    &&& state.filter_fd == Some(args.filter_fd)
    &&& state.control_fd == Some(args.control_fd)
    &&& state.ready_fd == Some(args.ready_fd)
    &&& state.exec_status_fd == Some(args.exec_status_fd)
    &&& args.foreground == state.foreground
    &&& args.keep_fds@ == state.keep_fds
    &&& path::byte_views(args.command@) == state.command
}

fn parse_fd(value: &[u8]) -> (result: Result<i32, ArgFault>)
    ensures
        result == fd_value(value@),
{
    if !is_text(value) {
        return Err(ArgFault::NotText);
    }
    match parse_i32(value) {
        Some(fd) => Ok(fd),
        None => Err(ArgFault::NotNumber),
    }
}

/// Reads the arguments of the bootstrap.
pub fn parse_args(args: &Vec<Vec<u8>>) -> (result: Result<BootstrapArgs, ArgFault>)
    ensures
        match read_from(path::byte_views(args@), 0, nothing_read()) {
            Err(fault) => result == Err::<BootstrapArgs, ArgFault>(fault),
            Ok(state) => match missing(state) {
                Some(fault) => result == Err::<BootstrapArgs, ArgFault>(fault),
                None => result matches Ok(read) && are_args(read, state),
            },
        },
{
    let ghost all = path::byte_views(args@);
    let mut filter_fd: Option<i32> = None;
    let mut control_fd: Option<i32> = None;
    let mut ready_fd: Option<i32> = None;
    let mut exec_status_fd: Option<i32> = None;
    let mut foreground = false;
    let mut keep_fds: Vec<i32> = Vec::new();
    let mut command: Vec<Vec<u8>> = Vec::new();
    let mut from: usize = 0;
    let ghost mut state = nothing_read();
    proof {
        assert(keep_fds@ =~= state.keep_fds);
        assert(path::byte_views(command@) =~= state.command);
    }
    while from < args.len()
        invariant
            from <= args@.len() + 1,
            all == path::byte_views(args@),
            state.filter_fd == filter_fd,
            state.control_fd == control_fd,
            state.ready_fd == ready_fd,
            state.exec_status_fd == exec_status_fd,
            state.foreground == foreground,
            state.keep_fds == keep_fds@,
            state.command == path::byte_views(command@),
            read_from(all, 0, nothing_read()) == read_from(all, from as int, state),
        decreases args@.len() + 1 - from,
    {
        let option = args[from].as_slice();
        proof {
            assert(all.len() == args@.len());
            assert(all[from as int] == args@[from as int]@);
        }
        if bytes_equal(option, COMMAND_FOLLOWS.as_bytes()) {
            let mut k: usize = from + 1;
            command = Vec::new();
            while k < args.len()
                invariant
                    from < k <= args@.len(),
                    all == path::byte_views(args@),
                    path::byte_views(command@) == all.subrange(from + 1, k as int),
                decreases args@.len() - k,
            {
                let word = copy_bytes(args[k].as_slice());
                let ghost before = path::byte_views(command@);
                let ghost added = word@;
                command.push(word);
                proof {
                    assert(path::byte_views(command@) =~= before.push(added));
                    assert(all.subrange(from + 1, k + 1) =~= all.subrange(from + 1, k as int).push(all[k as int]));
                }
                k = k + 1;
            }
            proof {
                assert(all.subrange(from + 1, k as int) =~= all.skip(from + 1));
                state = Reading { command: all.skip(from + 1), ..state };
            }
            from = args.len();
            proof {
                assert(read_from(all, from as int, state) == Ok::<Reading, ArgFault>(state));
            }
        } else {
            if from + 1 >= args.len() {
                return Err(ArgFault::MissingValue);
            }
            let value = args[from + 1].as_slice();
            proof {
                assert(all[from + 1] == args@[from + 1]@);
            }
            let ghost next = with_option(state, option@, value@);
            if bytes_equal(option, FILTER_FD.as_bytes()) {
                match parse_fd(value) {
                    Ok(fd) => {
                        filter_fd = Some(fd);
                    },
                    Err(fault) => {
                        return Err(fault);
                    },
                }
            } else if bytes_equal(option, CONTROL_FD.as_bytes()) {
                match parse_fd(value) {
                    Ok(fd) => {
                        control_fd = Some(fd);
                    },
                    Err(fault) => {
                        return Err(fault);
                    },
                }
            } else if bytes_equal(option, READY_FD.as_bytes()) {
                match parse_fd(value) {
                    Ok(fd) => {
                        ready_fd = Some(fd);
                    },
                    Err(fault) => {
                        return Err(fault);
                    },
                }
            } else if bytes_equal(option, EXEC_STATUS_FD.as_bytes()) {
                match parse_fd(value) {
                    Ok(fd) => {
                        exec_status_fd = Some(fd);
                    },
                    Err(fault) => {
                        return Err(fault);
                    },
                }
            } else if bytes_equal(option, FOREGROUND.as_bytes()) {
                foreground = bytes_equal(value, YES.as_bytes());
            } else if bytes_equal(option, KEEP_FD.as_bytes()) {
                match parse_fd(value) {
                    Ok(fd) => {
                        keep_fds.push(fd);
                    },
                    Err(fault) => {
                        return Err(fault);
                    },
                }
            } else {
                return Err(ArgFault::UnknownOption);
            }
            proof {
                state = next->Ok_0;
            }
            from = from + 2;
        }
    }
    if command.len() == 0 {
        return Err(ArgFault::EmptyCommand);
    }
    match (filter_fd, control_fd, ready_fd, exec_status_fd) {
        (None, _, _, _) => Err(ArgFault::MissingFilterFd),
        (_, None, _, _) => Err(ArgFault::MissingControlFd),
        (_, _, None, _) => Err(ArgFault::MissingReadyFd),
        (_, _, _, None) => Err(ArgFault::MissingExecStatusFd),
        (Some(filter), Some(control), Some(ready), Some(exec_status)) => Ok(
            BootstrapArgs {
                filter_fd: filter,
                control_fd: control,
                ready_fd: ready,
                exec_status_fd: exec_status,
                foreground,
                keep_fds,
                command,
            },
        ),
    }
}

impl BootstrapArgs {
    /// The descriptors that stay open: those to keep, and the one for failures.
    pub fn kept_fds(&self) -> (fds: Vec<i32>)
        ensures
            fds@ == self.keep_fds@.push(self.exec_status_fd),
    {
        let mut fds: Vec<i32> = Vec::new();
        let mut i: usize = 0;
        while i < self.keep_fds.len()
            invariant
                i <= self.keep_fds@.len(),
                fds@ == self.keep_fds@.take(i as int),
            decreases self.keep_fds@.len() - i,
        {
            fds.push(self.keep_fds[i]);
            proof {
                assert(self.keep_fds@.take(i as int + 1) =~= self.keep_fds@.take(i as int).push(
                    self.keep_fds@[i as int],
                ));
            }
            i = i + 1;
        }
        proof {
            assert(self.keep_fds@.take(i as int) =~= self.keep_fds@);
        }
        fds.push(self.exec_status_fd);
        fds
    }
}

/// Whether a word of a command holds a NUL byte.
pub open spec fn some_nul(words: Seq<Seq<u8>>) -> bool {
    exists|i: int| 0 <= i < words.len() && (#[trigger] words[i]).contains(0u8)
}

/// Whether no word of a command holds a NUL byte, so that it can be run.
pub fn command_is_plain(command: &Vec<Vec<u8>>) -> (result: bool)
    ensures
        result == !some_nul(path::byte_views(command@)),
{
    let ghost words = path::byte_views(command@);
    let mut i: usize = 0;
    while i < command.len()
        invariant
            i <= command@.len(),
            words == path::byte_views(command@),
            forall|j: int| 0 <= j < i ==> !(#[trigger] words[j]).contains(0u8),
        decreases command@.len() - i,
    {
        proof {
            assert(words[i as int] == command@[i as int]@);
        }
        if holds_byte(command[i].as_slice(), 0) {
            return false;
        }
        i = i + 1;
    }
    true
}

/// The outcome of giving up a capability: one that the kernel does not know needs
/// no giving up.
pub fn check_capability_drop(errno: Option<i32>) -> (result: Result<(), i32>)
    ensures
        result == match errno {
            Some(error) if error != EINVAL => Err::<(), i32>(error),
            _ => Ok::<(), i32>(()),
        },
{
    match errno {
        Some(error) => {
            if error != EINVAL {
                Err(error)
            } else {
                Ok(())
            }
        },
        None => Ok(()),
    }
}

/// The place of the first status option that has a value.
pub open spec fn status_option(args: Seq<Seq<u8>>, from: int) -> Option<int>
    decreases args.len() - from,
{
    if from < 0 || from + 1 >= args.len() {
        None
    } else if args[from] == EXEC_STATUS_FD.spec_bytes() {
        Some(from)
    } else {
        status_option(args, from + 1)
    }
}

/// The descriptor for failures, found before the arguments are read: so that a
/// failure to read them can be told.
pub fn early_status_fd(args: &Vec<Vec<u8>>) -> (fd: Option<i32>)
    ensures
        fd == match status_option(path::byte_views(args@), 0) {
            None => None::<i32>,
            Some(at) => match fd_value(path::byte_views(args@)[at + 1]) {
                Ok(number) => Some(number),
                Err(_) => None::<i32>,
            },
        },
{
    let ghost all = path::byte_views(args@);
    proof {
        assert(all.len() == args@.len());
    }
    if args.len() == 0 {
        return None;
    }
    let last: usize = args.len() - 1;
    let mut i: usize = 0;
    while i < last
        invariant
            i <= last == args@.len() - 1,
            all == path::byte_views(args@),
            all.len() == args@.len(),
            status_option(all, 0) == status_option(all, i as int),
        decreases last - i,
    {
        proof {
            assert(all.len() == args@.len());
            assert(all[i as int] == args@[i as int]@);
            assert(all[i + 1] == args@[i + 1]@);
        }
        if bytes_equal(args[i].as_slice(), EXEC_STATUS_FD.as_bytes()) {
            return match parse_fd(args[i + 1].as_slice()) {
                Ok(fd) => Some(fd),
                Err(_) => None,
            };
        }
        i = i + 1;
    }
    None
}

/// One instruction of a system call filter.
#[derive(Clone, Copy, Debug, PartialEq, Eq, Structural)]
pub struct SockFilter {
    pub code: u16,
    pub jt: u8,
    pub jf: u8,
    pub k: u32,
}

/// The word that a filter starts with.
pub open spec fn filter_magic() -> Seq<u8> {
    seq![0x53u8, 0x4c, 0x42, 0x50, 0x30, 0x30, 0x30, 0x31]
}

/// The most instructions of a filter.
pub const MAX_FILTER_INSTRUCTIONS: usize = 4096;

/// The bytes of an instruction, each number lowest byte first.
pub open spec fn instruction_image(instruction: SockFilter) -> Seq<u8> {
    spec_u16_to_le_bytes(instruction.code) + seq![instruction.jt, instruction.jf] + spec_u32_to_le_bytes(
        instruction.k,
    )
}

/// The bytes of instructions.
pub open spec fn instructions_image(filter: Seq<SockFilter>) -> Seq<u8>
    decreases filter.len(),
{
    if filter.len() == 0 {
        Seq::empty()
    } else {
        instructions_image(filter.drop_last()) + instruction_image(filter.last())
    }
}

/// The bytes of a filter: its word, its length, its instructions.
pub open spec fn filter_image(filter: Seq<SockFilter>) -> Seq<u8> {
    filter_magic() + spec_u32_to_le_bytes(filter.len() as u32) + instructions_image(filter)
}

/// What can be wrong with a filter.
#[derive(Clone, Copy, Debug, PartialEq, Eq, Structural)]
pub enum FilterFault {
    /// The bytes end too early.
    Short,
    /// The bytes do not start with the word of a filter.
    Magic,
    /// There is no instruction, or there are too many.
    Count,
}

/// The number of instructions that bytes announce.
pub open spec fn announced(bytes: Seq<u8>) -> int {
    spec_u32_from_le_bytes(bytes.subrange(8, 12)) as int
}

/// Why bytes are no filter.
pub open spec fn filter_fault(bytes: Seq<u8>) -> Option<FilterFault> {
    if bytes.len() < 12 {
        Some(FilterFault::Short)
    } else if bytes.take(8) != filter_magic() {
        Some(FilterFault::Magic)
    } else if announced(bytes) == 0 || announced(bytes) > MAX_FILTER_INSTRUCTIONS {
        Some(FilterFault::Count)
    } else if bytes.len() < 12 + 8 * announced(bytes) {
        Some(FilterFault::Short)
    } else {
        None
    }
}

/// The instruction at a place of a filter.
pub open spec fn instruction_at(bytes: Seq<u8>, i: int) -> SockFilter {
    let at = 12 + 8 * i;
    SockFilter {
        code: spec_u16_from_le_bytes(bytes.subrange(at, at + 2)),
        jt: bytes[at + 2],
        jf: bytes[at + 3],
        k: spec_u32_from_le_bytes(bytes.subrange(at + 4, at + 8)),
    }
}

/// Reads a filter.
pub fn read_filter(bytes: &[u8]) -> (result: Result<Vec<SockFilter>, FilterFault>)
    ensures
        match filter_fault(bytes@) {
            Some(fault) => result == Err::<Vec<SockFilter>, FilterFault>(fault),
            None => result matches Ok(filter) && filter@ == Seq::new(
                announced(bytes@) as nat,
                |i: int| instruction_at(bytes@, i),
            ),
        },
{
    if bytes.len() < 12 {
        return Err(FilterFault::Short);
    }
    let magic: Vec<u8> = vec![0x53, 0x4c, 0x42, 0x50, 0x30, 0x30, 0x30, 0x31];
    let word = vstd::slice::slice_subrange(bytes, 0, 8);
    proof {
        assert(magic@ =~= filter_magic());
        assert(word@ =~= bytes@.take(8));
    }
    if !bytes_equal(word, magic.as_slice()) {
        return Err(FilterFault::Magic);
    }
    let count = u32_from_le_bytes(vstd::slice::slice_subrange(bytes, 8, 12)) as usize;
    if count == 0 || count > MAX_FILTER_INSTRUCTIONS {
        return Err(FilterFault::Count);
    }
    if bytes.len() - 12 < 8 * count {
        return Err(FilterFault::Short);
    }
    let mut filter: Vec<SockFilter> = Vec::new();
    let mut i: usize = 0;
    while i < count
        invariant
            i <= count <= MAX_FILTER_INSTRUCTIONS,
            12 + 8 * count <= bytes@.len(),
            filter@.len() == i,
            forall|j: int| 0 <= j < i ==> #[trigger] filter@[j] == instruction_at(bytes@, j),
        decreases count - i,
    {
        let at: usize = 12 + 8 * i;
        let code = u16_from_le_bytes(vstd::slice::slice_subrange(bytes, at, at + 2));
        let k = u32_from_le_bytes(vstd::slice::slice_subrange(bytes, at + 4, at + 8));
        filter.push(SockFilter { code, jt: bytes[at + 2], jf: bytes[at + 3], k });
        i = i + 1;
    }
    proof {
        assert(filter@ =~= Seq::new(announced(bytes@) as nat, |i: int| instruction_at(bytes@, i)));
    }
    Ok(filter)
}

/// Writes a filter.
pub fn write_filter(filter: &Vec<SockFilter>) -> (bytes: Vec<u8>)
    requires
        filter@.len() <= u32::MAX,
    ensures
        bytes@ == filter_image(filter@),
{
    let mut bytes: Vec<u8> = vec![0x53, 0x4c, 0x42, 0x50, 0x30, 0x30, 0x30, 0x31];
    proof {
        assert(bytes@ =~= filter_magic());
    }
    let count = u32_to_le_bytes(filter.len() as u32);
    append_bytes(&mut bytes, count.as_slice());
    let ghost head = bytes@;
    let mut i: usize = 0;
    proof {
        assert(filter@.take(0) =~= Seq::<SockFilter>::empty());
        assert(head + Seq::<u8>::empty() =~= head);
    }
    while i < filter.len()
        invariant
            i <= filter@.len(),
            bytes@ == head + instructions_image(filter@.take(i as int)),
        decreases filter@.len() - i,
    {
        let instruction = filter[i];
        let ghost before = bytes@;
        let code = u16_to_le_bytes(instruction.code);
        append_bytes(&mut bytes, code.as_slice());
        bytes.push(instruction.jt);
        bytes.push(instruction.jf);
        let k = u32_to_le_bytes(instruction.k);
        append_bytes(&mut bytes, k.as_slice());
        proof {
            assert(bytes@ =~= before + instruction_image(instruction));
            assert(filter@.take(i as int + 1).drop_last() =~= filter@.take(i as int));
            assert(filter@.take(i as int + 1).last() == instruction);
            assert(head + (instructions_image(filter@.take(i as int)) + instruction_image(instruction)) =~= (head
                + instructions_image(filter@.take(i as int))) + instruction_image(instruction));
        }
        i = i + 1;
    }
    proof {
        assert(filter@.take(i as int) =~= filter@);
    }
    bytes
}

proof fn lemma_instruction_size(instruction: SockFilter)
    ensures
        instruction_image(instruction).len() == 8,
{
    lemma_auto_spec_u16_to_from_le_bytes();
    lemma_auto_spec_u32_to_from_le_bytes();
}

proof fn lemma_instructions_size(filter: Seq<SockFilter>)
    ensures
        instructions_image(filter).len() == 8 * filter.len(),
    decreases filter.len(),
{
    if filter.len() > 0 {
        lemma_instructions_size(filter.drop_last());
        lemma_instruction_size(filter.last());
    }
}

proof fn lemma_instruction_place(filter: Seq<SockFilter>, i: int)
    requires
        0 <= i < filter.len(),
    ensures
        instructions_image(filter).len() == 8 * filter.len(),
        instructions_image(filter).subrange(8 * i, 8 * i + 8) == instruction_image(filter[i]),
    decreases filter.len(),
{
    lemma_instructions_size(filter);
    lemma_instructions_size(filter.drop_last());
    lemma_instruction_size(filter.last());
    let whole = instructions_image(filter);
    let before = instructions_image(filter.drop_last());
    if i == filter.len() - 1 {
        assert(whole.subrange(8 * i, 8 * i + 8) =~= instruction_image(filter[i]));
    } else {
        lemma_instruction_place(filter.drop_last(), i);
        assert(whole.subrange(8 * i, 8 * i + 8) =~= before.subrange(8 * i, 8 * i + 8));
    }
}

/// A filter that was written is read back as it was, whatever follows it.
pub proof fn law_filter_reads_back(filter: Seq<SockFilter>, rest: Seq<u8>)
    requires
        0 < filter.len() <= MAX_FILTER_INSTRUCTIONS,
    ensures
        filter_fault(filter_image(filter) + rest) is None,
        Seq::new(
            announced(filter_image(filter) + rest) as nat,
            |i: int| instruction_at(filter_image(filter) + rest, i),
        ) == filter,
{
    lemma_auto_spec_u16_to_from_le_bytes();
    lemma_auto_spec_u32_to_from_le_bytes();
    let bytes = filter_image(filter) + rest;
    let count = spec_u32_to_le_bytes(filter.len() as u32);
    assert(count.len() == 4);
    lemma_instructions_size(filter);
    assert(bytes.take(8) =~= filter_magic());
    assert(bytes.subrange(8, 12) =~= count);
    assert(announced(bytes) == filter.len());
    assert forall|i: int| 0 <= i < filter.len() implies #[trigger] instruction_at(bytes, i) == filter[i] by {
        lemma_instruction_place(filter, i);
        lemma_instruction_size(filter[i]);
        let at = 12 + 8 * i;
        let image = instruction_image(filter[i]);
        let code = spec_u16_to_le_bytes(filter[i].code);
        let k = spec_u32_to_le_bytes(filter[i].k);
        assert(code.len() == 2 && k.len() == 4);
        let window = bytes.subrange(at, at + 8);
        assert(window =~= instructions_image(filter).subrange(8 * i, 8 * i + 8));
        assert(bytes.subrange(at, at + 2) =~= window.subrange(0, 2));
        assert(bytes.subrange(at + 4, at + 8) =~= window.subrange(4, 8));
        assert(bytes[at + 2] == window[2] && bytes[at + 3] == window[3]);
        assert(image.subrange(0, 2) =~= code);
        assert(image.subrange(4, 8) =~= k);
    }
    assert(Seq::new(announced(bytes) as nat, |i: int| instruction_at(bytes, i)) =~= filter);
}

/// The frame that hands over a listener: its word, then the process that it
/// listens to.
pub open spec fn listener_image(pid: i32) -> Seq<u8> {
    listener_magic() + spec_u32_to_le_bytes(pid as u32)
}

/// The word that a listener frame starts with.
pub open spec fn listener_magic() -> Seq<u8> {
    seq![0x53u8, 0x4c, 0x4e, 0x46]
}

/// Writes the frame that hands over a listener.
pub fn listener_frame(pid: i32) -> (bytes: Vec<u8>)
    ensures
        bytes@ == listener_image(pid),
{
    let mut bytes: Vec<u8> = vec![0x53, 0x4c, 0x4e, 0x46];
    proof {
        assert(bytes@ =~= listener_magic());
    }
    let number = u32_to_le_bytes(pid as u32);
    append_bytes(&mut bytes, number.as_slice());
    bytes
}

/// The most bytes of a stage in a failure frame.
pub const MAX_STAGE_BYTES: usize = 512;

/// The frame that tells a failure: its word, the error, and the stage that
/// failed, of which only so much is told.
pub open spec fn failure_image(stage: Seq<u8>, errno: i32) -> Seq<u8> {
    let told = if stage.len() > MAX_STAGE_BYTES {
        stage.take(MAX_STAGE_BYTES as int)
    } else {
        stage
    };
    seq![0x53u8, 0x4c, 0x58, 0x46] + spec_u32_to_le_bytes(errno as u32) + spec_u16_to_le_bytes(told.len() as u16) + told
}

/// Writes the frame that tells a failure.
pub fn report_exec_failure(stage: &[u8], errno: Option<i32>) -> (frame: Vec<u8>)
    ensures
        frame@ == failure_image(
            stage@,
            match errno {
                Some(number) => number,
                None => 0,
            },
        ),
{
    let number: i32 = match errno {
        Some(number) => number,
        None => 0,
    };
    let told = if stage.len() > MAX_STAGE_BYTES {
        vstd::slice::slice_subrange(stage, 0, MAX_STAGE_BYTES)
    } else {
        stage
    };
    proof {
        if stage@.len() > MAX_STAGE_BYTES {
            assert(told@ =~= stage@.take(MAX_STAGE_BYTES as int));
        }
    }
    let mut frame: Vec<u8> = vec![0x53, 0x4c, 0x58, 0x46];
    proof {
        assert(frame@ =~= seq![0x53u8, 0x4c, 0x58, 0x46]);
    }
    let error = u32_to_le_bytes(number as u32);
    append_bytes(&mut frame, error.as_slice());
    let length = u16_to_le_bytes(told.len() as u16);
    append_bytes(&mut frame, length.as_slice());
    append_bytes(&mut frame, told);
    frame
}

/// Whether some ranges hold a descriptor.
pub open spec fn in_ranges(ranges: Seq<(u32, u32)>, fd: int) -> bool {
    exists|i: int| 0 <= i < ranges.len() && (#[trigger] ranges[i]).0 <= fd <= ranges[i].1
}

/// Whether a descriptor is to be kept.
pub open spec fn is_kept(keep: Seq<i32>, fd: int) -> bool {
    exists|i: int| 0 <= i < keep.len() && #[trigger] keep[i] == fd
}

/// The least descriptor of a list that is not below another.
fn least_from(keep: &Vec<i32>, from: u32) -> (least: Option<u32>)
    ensures
        match least {
            Some(fd) => from <= fd && is_kept(keep@, fd as int) && forall|other: int|
                from <= other < fd ==> !#[trigger] is_kept(keep@, other),
            None => forall|other: int| from <= other ==> !#[trigger] is_kept(keep@, other),
        },
{
    let mut least: Option<u32> = None;
    let mut i: usize = 0;
    while i < keep.len()
        invariant
            i <= keep@.len(),
            match least {
                Some(fd) => from <= fd && is_kept(keep@, fd as int) && forall|j: int|
                    0 <= j < i && from <= #[trigger] keep@[j] ==> fd <= keep@[j],
                None => forall|j: int| 0 <= j < i ==> #[trigger] keep@[j] < from,
            },
        decreases keep@.len() - i,
    {
        let fd = keep[i];
        if fd >= 0 && fd as u32 >= from {
            let number: u32 = fd as u32;
            match least {
                Some(known) => {
                    if number < known {
                        least = Some(number);
                        proof {
                            assert(keep@[i as int] == number);
                        }
                    }
                },
                None => {
                    least = Some(number);
                    proof {
                        assert(keep@[i as int] == number);
                    }
                },
            }
        }
        i = i + 1;
    }
    least
}

/// The ranges of descriptors above one that are closed: all but those that are
/// kept.
pub fn close_fds_above(min_fd: u32, keep: &Vec<i32>) -> (ranges: Vec<(u32, u32)>)
    requires
        min_fd < 0x7fff_ffff,
    ensures
        forall|fd: int|
            0 <= fd <= u32::MAX ==> (#[trigger] in_ranges(ranges@, fd) <==> fd > min_fd && !is_kept(keep@, fd)),
{
    let mut ranges: Vec<(u32, u32)> = Vec::new();
    let mut next: u32 = min_fd + 1;
    loop
        invariant
            min_fd < next <= 0x8000_0000,
            forall|fd: int|
                0 <= fd < next ==> (#[trigger] in_ranges(ranges@, fd) <==> fd > min_fd && !is_kept(keep@, fd)),
            forall|i: int| 0 <= i < ranges@.len() ==> (#[trigger] ranges@[i]).1 < next,
        decreases 0x8000_0001 - next,
    {
        let ghost before = ranges@;
        match least_from(keep, next) {
            None => {
                ranges.push((next, u32::MAX));
                proof {
                    assert forall|fd: int| 0 <= fd <= u32::MAX implies (#[trigger] in_ranges(ranges@, fd) <==> fd
                        > min_fd && !is_kept(keep@, fd)) by {
                        lemma_one_more_range(before, (next, u32::MAX), fd);
                    }
                }
                return ranges;
            },
            Some(fd) => {
                proof {
                    let i = choose|i: int| 0 <= i < keep@.len() && #[trigger] keep@[i] == fd as int;
                    assert(fd <= 0x7fff_ffff);
                }
                if fd > next {
                    ranges.push((next, fd - 1));
                    proof {
                        assert forall|other: int| 0 <= other < fd + 1 implies (#[trigger] in_ranges(ranges@, other)
                            <==> other > min_fd && !is_kept(keep@, other)) by {
                            lemma_one_more_range(before, (next, (fd - 1) as u32), other);
                            lemma_beyond_ranges(before, next as int, other);
                        }
                    }
                } else {
                    proof {
                        assert forall|other: int| 0 <= other < fd + 1 implies (#[trigger] in_ranges(ranges@, other)
                            <==> other > min_fd && !is_kept(keep@, other)) by {
                            lemma_beyond_ranges(before, next as int, other);
                        }
                    }
                }
                next = fd + 1;
            },
        }
    }
}

proof fn lemma_beyond_ranges(ranges: Seq<(u32, u32)>, next: int, fd: int)
    requires
        forall|i: int| 0 <= i < ranges.len() ==> (#[trigger] ranges[i]).1 < next,
    ensures
        fd >= next ==> !in_ranges(ranges, fd),
{
}

proof fn lemma_one_more_range(ranges: Seq<(u32, u32)>, range: (u32, u32), fd: int)
    ensures
        in_ranges(ranges.push(range), fd) <==> (in_ranges(ranges, fd) || range.0 <= fd <= range.1),
{
    let all = ranges.push(range);
    if in_ranges(ranges, fd) {
        let i = choose|i: int| 0 <= i < ranges.len() && (#[trigger] ranges[i]).0 <= fd <= ranges[i].1;
        assert(all[i] == ranges[i]);
    }
    if range.0 <= fd <= range.1 {
        assert(all[ranges.len() as int] == range);
    }
    if in_ranges(all, fd) {
        let i = choose|i: int| 0 <= i < all.len() && (#[trigger] all[i]).0 <= fd <= all[i].1;
        if i < ranges.len() {
            assert(ranges[i] == all[i]);
        }
    }
}

/// Whether a device is a stateless byte stream: null, zero, random or urandom.
pub open spec fn is_byte_stream(mode: u32, major: u32, minor: u32) -> bool {
    mode & S_IFMT == S_IFCHR && major == 1 && (minor == 3 || minor == 5 || minor == 8 || minor == 9)
}

/// Whether a device may be read through a descriptor that is open already.
pub fn supported(mode: u32, major: u32, minor: u32) -> (result: bool)
    ensures
        result == is_byte_stream(mode, major, minor),
{
    mode & S_IFMT == S_IFCHR && major == 1 && (minor == 3 || minor == 5 || minor == 8 || minor == 9)
}

pub const ST_RDONLY: u64 = 1;

pub const ST_NODEV: u64 = 4;

/// What can be wrong with the descriptor of a device.
#[derive(Clone, Copy, Debug, PartialEq, Eq, Structural)]
pub enum DeviceFault {
    Unsupported,
    NotReadOnly,
}

/// Checks the descriptor of a device: it only reads, and its mount allows no
/// more.
pub fn check_device(is_supported: bool, open_flags: i32, mount_flags: u64) -> (result: Result<(), DeviceFault>)
    ensures
        result == if !is_supported {
            Err::<(), DeviceFault>(DeviceFault::Unsupported)
        } else if open_flags < 0 || (open_flags as u64) & O_ACCMODE != 0 || mount_flags & (ST_RDONLY | ST_NODEV) != (
        ST_RDONLY | ST_NODEV) {
            Err::<(), DeviceFault>(DeviceFault::NotReadOnly)
        } else {
            Ok::<(), DeviceFault>(())
        },
{
    if !is_supported {
        return Err(DeviceFault::Unsupported);
    }
    if open_flags < 0 || (open_flags as u64) & O_ACCMODE != 0 || mount_flags & (ST_RDONLY | ST_NODEV) != (ST_RDONLY
        | ST_NODEV) {
        return Err(DeviceFault::NotReadOnly);
    }
    Ok(())
}

/// What each option sets, and that it sets nothing else.
pub proof fn law_options_set_what_they_name(state: Reading, value: Seq<u8>, fd: i32, option: Seq<u8>)
    requires
        fd_value(value) == Ok::<i32, ArgFault>(fd),
    ensures
        with_option(state, "--filter-fd".spec_bytes(), value) == Ok::<Reading, ArgFault>(
            Reading { filter_fd: Some(fd), ..state },
        ),
        with_option(state, "--control-fd".spec_bytes(), value) == Ok::<Reading, ArgFault>(
            Reading { control_fd: Some(fd), ..state },
        ),
        with_option(state, "--ready-fd".spec_bytes(), value) == Ok::<Reading, ArgFault>(
            Reading { ready_fd: Some(fd), ..state },
        ),
        with_option(state, "--exec-status-fd".spec_bytes(), value) == Ok::<Reading, ArgFault>(
            Reading { exec_status_fd: Some(fd), ..state },
        ),
        with_option(state, "--foreground".spec_bytes(), value) == Ok::<Reading, ArgFault>(
            Reading { foreground: value == "1".spec_bytes(), ..state },
        ),
        with_option(state, "--keep-fd".spec_bytes(), value) == Ok::<Reading, ArgFault>(
            Reading { keep_fds: state.keep_fds.push(fd), ..state },
        ),
        option != "--filter-fd".spec_bytes() && option != "--control-fd".spec_bytes() && option != "--ready-fd".spec_bytes()
            && option != "--exec-status-fd".spec_bytes() && option != "--foreground".spec_bytes() && option
            != "--keep-fd".spec_bytes() ==> with_option(state, option, value) == Err::<Reading, ArgFault>(
            ArgFault::UnknownOption,
        ),
{
    lemma_options_differ();
}

proof fn lemma_options_differ()
    ensures
        "--filter-fd".spec_bytes() != "--control-fd".spec_bytes(),
        "--filter-fd".spec_bytes() != "--ready-fd".spec_bytes(),
        "--filter-fd".spec_bytes() != "--exec-status-fd".spec_bytes(),
        "--filter-fd".spec_bytes() != "--foreground".spec_bytes(),
        "--filter-fd".spec_bytes() != "--keep-fd".spec_bytes(),
        "--control-fd".spec_bytes() != "--ready-fd".spec_bytes(),
        "--control-fd".spec_bytes() != "--exec-status-fd".spec_bytes(),
        "--control-fd".spec_bytes() != "--foreground".spec_bytes(),
        "--control-fd".spec_bytes() != "--keep-fd".spec_bytes(),
        "--ready-fd".spec_bytes() != "--exec-status-fd".spec_bytes(),
        "--ready-fd".spec_bytes() != "--foreground".spec_bytes(),
        "--ready-fd".spec_bytes() != "--keep-fd".spec_bytes(),
        "--exec-status-fd".spec_bytes() != "--foreground".spec_bytes(),
        "--exec-status-fd".spec_bytes() != "--keep-fd".spec_bytes(),
        "--foreground".spec_bytes() != "--keep-fd".spec_bytes(),
{
    reveal_strlit("--filter-fd");
    reveal_strlit("--control-fd");
    reveal_strlit("--ready-fd");
    reveal_strlit("--exec-status-fd");
    reveal_strlit("--foreground");
    reveal_strlit("--keep-fd");
    vstd::utf8::is_ascii_chars_encode_utf8("--filter-fd"@);
    vstd::utf8::is_ascii_chars_encode_utf8("--control-fd"@);
    vstd::utf8::is_ascii_chars_encode_utf8("--ready-fd"@);
    vstd::utf8::is_ascii_chars_encode_utf8("--exec-status-fd"@);
    vstd::utf8::is_ascii_chars_encode_utf8("--foreground"@);
    vstd::utf8::is_ascii_chars_encode_utf8("--keep-fd"@);
    assert("--filter-fd".spec_bytes()[2] == 'f' as u8 && "--filter-fd".spec_bytes().len() == 11);
    assert("--control-fd".spec_bytes()[2] == 'c' as u8);
    assert("--ready-fd".spec_bytes()[2] == 'r' as u8);
    assert("--exec-status-fd".spec_bytes()[2] == 'e' as u8);
    assert("--foreground".spec_bytes()[2] == 'f' as u8 && "--foreground".spec_bytes().len() == 12);
    assert("--keep-fd".spec_bytes()[2] == 'k' as u8);
}

/// Descriptors are read back as they are written, and what is no text, no number, or none
/// that fits is refused.
pub proof fn law_descriptors_are_read_back(fd: i32, value: Seq<u8>)
    ensures
        fd_value(text::signed_digits(fd as int)) == Ok::<i32, ArgFault>(fd),
        !vstd::utf8::valid_utf8(value) ==> fd_value(value) == Err::<i32, ArgFault>(ArgFault::NotText),
        vstd::utf8::valid_utf8(value) && text::signed(value) is None ==> fd_value(value) == Err::<i32, ArgFault>(
            ArgFault::NotNumber,
        ),
        fd_value(value) matches Ok(read) ==> text::signed(value) == Some(read as int),
{
    text::law_signed_reads_back(fd as int);
}

/// Arguments are read in pairs until two dashes, behind which the command stands; an option
/// without a value, and an option that is refused, end the reading.
pub proof fn law_arguments_are_read_in_pairs(args: Seq<Seq<u8>>, from: int, state: Reading)
    requires
        0 <= from < args.len(),
    ensures
        args[from] == "--".spec_bytes() ==> read_from(args, from, state) == Ok::<Reading, ArgFault>(
            Reading { command: args.skip(from + 1), ..state },
        ),
        args[from] != "--".spec_bytes() && from + 1 == args.len() ==> read_from(args, from, state) == Err::<
            Reading,
            ArgFault,
        >(ArgFault::MissingValue),
        args[from] != "--".spec_bytes() && from + 1 < args.len() ==> (match with_option(state, args[from], args[from + 1]) {
            Ok(next) => read_from(args, from, state) == read_from(args, from + 2, next),
            Err(fault) => read_from(args, from, state) == Err::<Reading, ArgFault>(fault),
        }),
        read_from(args, args.len() as int, state) == Ok::<Reading, ArgFault>(state),
{
}

/// Nothing is missing exactly where there are a command and all four descriptors.
pub proof fn law_complete_arguments_miss_nothing(state: Reading)
    ensures
        missing(state) is None <==> state.command.len() > 0 && state.filter_fd is Some && state.control_fd is Some
            && state.ready_fd is Some && state.exec_status_fd is Some,
        missing(state) == Some(ArgFault::EmptyCommand) <==> state.command.len() == 0,
{
}

proof fn lemma_status_option(args: Seq<Seq<u8>>, from: int)
    requires
        0 <= from,
    ensures
        match status_option(args, from) {
            Some(at) => from <= at && at + 1 < args.len() && args[at] == "--exec-status-fd".spec_bytes() && forall|i: int|
                from <= i < at ==> #[trigger] args[i] != "--exec-status-fd".spec_bytes(),
            None => forall|i: int|
                from <= i && i < args.len() - 1 ==> #[trigger] args[i] != "--exec-status-fd".spec_bytes(),
        },
    decreases args.len() - from,
{
    if from + 1 < args.len() && args[from] != "--exec-status-fd".spec_bytes() {
        lemma_status_option(args, from + 1);
    }
}

/// The descriptor for failures is looked for early, as the first option of its name that has
/// a value.
pub proof fn law_failures_are_told_early(args: Seq<Seq<u8>>)
    ensures
        match status_option(args, 0) {
            Some(at) => 0 <= at && at + 1 < args.len() && args[at] == "--exec-status-fd".spec_bytes() && forall|i: int|
                0 <= i < at ==> #[trigger] args[i] != "--exec-status-fd".spec_bytes(),
            None => forall|i: int| 0 <= i && i < args.len() - 1 ==> #[trigger] args[i] != "--exec-status-fd".spec_bytes(),
        },
{
    lemma_status_option(args, 0);
}

/// A failure is told by a mark, its number, and the stage that failed, cut to what fits,
/// behind its length; a listener by its mark and its process.
pub proof fn law_failures_are_framed(stage: Seq<u8>, errno: i32, pid: i32)
    ensures
        ({
            let frame = failure_image(stage, errno);
            &&& frame.take(4) == "SLXF".spec_bytes()
            &&& frame.subrange(4, 8) == spec_u32_to_le_bytes(errno as u32)
            &&& stage.len() <= 512 ==> frame.subrange(8, 10) == spec_u16_to_le_bytes(stage.len() as u16) && frame.skip(10)
                == stage
            &&& stage.len() > 512 ==> frame.subrange(8, 10) == spec_u16_to_le_bytes(512) && frame.skip(10) == stage.take(512)
            &&& listener_image(pid).take(4) == "SLNF".spec_bytes()
            &&& listener_image(pid).skip(4) == spec_u32_to_le_bytes(pid as u32)
        }),
{
    lemma_auto_spec_u32_to_from_le_bytes();
    lemma_auto_spec_u16_to_from_le_bytes();
    reveal_strlit("SLXF");
    reveal_strlit("SLNF");
    vstd::utf8::is_ascii_chars_encode_utf8("SLXF"@);
    vstd::utf8::is_ascii_chars_encode_utf8("SLNF"@);
    let frame = failure_image(stage, errno);
    assert(frame.take(4) =~= "SLXF".spec_bytes());
    assert(frame.subrange(4, 8) =~= spec_u32_to_le_bytes(errno as u32));
    if stage.len() <= 512 {
        assert(frame.subrange(8, 10) =~= spec_u16_to_le_bytes(stage.len() as u16));
        assert(frame.skip(10) =~= stage);
    } else {
        assert(frame.subrange(8, 10) =~= spec_u16_to_le_bytes(512));
        assert(frame.skip(10) =~= stage.take(512));
    }
    assert(listener_image(pid).take(4) =~= "SLNF".spec_bytes());
    assert(listener_image(pid).skip(4) =~= spec_u32_to_le_bytes(pid as u32));
}

/// A filter is read exactly where it begins with its mark, announces between one and the
/// most instructions, and holds them all.
pub proof fn law_filters_hold_what_they_announce(bytes: Seq<u8>)
    ensures
        filter_fault(bytes) is None <==> bytes.len() >= 12 && bytes.take(8) == "SLBP0001".spec_bytes() && 0 < announced(
            bytes,
        ) <= 4096 && bytes.len() >= 12 + 8 * announced(bytes),
        filter_fault(bytes) == Some(FilterFault::Magic) <==> bytes.len() >= 12 && bytes.take(8) != "SLBP0001".spec_bytes(),
        announced(bytes) == spec_u32_from_le_bytes(bytes.subrange(8, 12)),
{
    reveal_strlit("SLBP0001");
    vstd::utf8::is_ascii_chars_encode_utf8("SLBP0001"@);
    assert(filter_magic() =~= "SLBP0001".spec_bytes());
}

/// The devices that can be read as streams of bytes: the character devices of memory that
/// hand out nothing, zeros or random bytes.
pub proof fn law_byte_streams_are_memory_devices(mode: u32, major: u32, minor: u32)
    ensures
        is_byte_stream(mode, major, minor) <==> mode & 0o170000 == 0o020000 && major == 1 && (minor == 3 || minor == 5
            || minor == 8 || minor == 9),
{
}

} // verus!
