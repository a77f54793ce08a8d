//! The members of a session: which tasks are looked at, and which count.

use crate::execution_domain::{gone, is_gone, DomainFault, SIGSTOP};
use crate::task_stat;
use crate::task_stat::{read_stat, TaskStat};
use crate::text;
use crate::text::parse_i32;
use vstd::prelude::*;

verus! {

/// The most entries of the process filesystem that are looked at.
pub const MAX_PROC_ENTRIES: usize = 1_000_000;

/// The most tasks of a session.
pub const MAX_TASKS: usize = 8192;

/// How a look at the `stat` file of a task came out.
#[derive(Clone, Copy, Debug, PartialEq, Eq, Structural)]
pub enum StatOutcome {
    Read(TaskStat),
    Gone,
    Failed(DomainFault),
}

/// How the opening of a handle on a task came out.
#[derive(Clone, Copy, Debug, PartialEq, Eq, Structural)]
pub enum HandleOutcome {
    Opened(i32),
    Gone,
    Failed(DomainFault),
}

/// Whether a task is still there.
#[derive(Clone, Copy, Debug, PartialEq, Eq, Structural)]
pub enum ExitOutcome {
    Running,
    Exited,
    Failed(DomainFault),
}

/// What the reading of a `stat` file tells: the text, or the error.
pub fn stat_outcome(read: &Result<String, i32>) -> (outcome: StatOutcome)
    ensures
        outcome == match *read {
            Ok(stat) => match task_stat::stat_of(stat@) {
                Some(known) => StatOutcome::Read(known),
                None => StatOutcome::Failed(DomainFault::InvalidStat),
            },
            Err(errno) => if is_gone(errno) {
                StatOutcome::Gone
            } else {
                StatOutcome::Failed(DomainFault::Failed(errno))
            },
        },
{
    match read {
        Ok(stat) => match read_stat(stat.as_str()) {
            Some(known) => StatOutcome::Read(known),
            None => StatOutcome::Failed(DomainFault::InvalidStat),
        },
        Err(errno) => {
            if gone(*errno) {
                StatOutcome::Gone
            } else {
                StatOutcome::Failed(DomainFault::Failed(*errno))
            }
        },
    }
}

/// What opening a handle tells: the handle, or the error.
pub fn handle_outcome(opened: Result<i32, i32>) -> (outcome: HandleOutcome)
    ensures
        outcome == match opened {
            Ok(fd) => HandleOutcome::Opened(fd),
            Err(errno) => if is_gone(errno) {
                HandleOutcome::Gone
            } else {
                HandleOutcome::Failed(DomainFault::Failed(errno))
            },
        },
{
    match opened {
        Ok(fd) => HandleOutcome::Opened(fd),
        Err(errno) => {
            if gone(errno) {
                HandleOutcome::Gone
            } else {
                HandleOutcome::Failed(DomainFault::Failed(errno))
            }
        },
    }
}

/// What was seen of a process so far.
#[derive(Clone, Copy, Debug, PartialEq, Eq, Structural)]
pub struct MemberEvidence {
    pub before: Option<StatOutcome>,
    pub opened: Option<HandleOutcome>,
    pub exited: Option<ExitOutcome>,
    pub after: Option<StatOutcome>,
}

/// What is done next with a process.
#[derive(Clone, Copy, Debug, PartialEq, Eq, Structural)]
pub enum MemberStep {
    ReadStat { pid: i32 },
    OpenHandle { pid: i32 },
    /// Tell whether the process behind a handle has ended.
    CheckExit { handle: i32 },
    ReadStatAgain { pid: i32 },
    /// It is no live member.
    Skip,
    Fail(DomainFault),
    /// It is a live member, held by this handle.
    Member(i32),
}

/// What is done next with a process that may be a member of a session. A handle
/// counts only where the process was the same before and after it was opened.
pub open spec fn member_step(session: i32, pid: i32, seen: MemberEvidence) -> MemberStep {
    match seen.before {
        None => MemberStep::ReadStat { pid },
        Some(StatOutcome::Gone) => MemberStep::Skip,
        Some(StatOutcome::Failed(fault)) => MemberStep::Fail(fault),
        Some(StatOutcome::Read(before)) => if before.session != session {
            MemberStep::Skip
        } else {
            match seen.opened {
                None => MemberStep::OpenHandle { pid },
                Some(HandleOutcome::Gone) => MemberStep::Skip,
                Some(HandleOutcome::Failed(fault)) => MemberStep::Fail(fault),
                Some(HandleOutcome::Opened(fd)) => match seen.exited {
                    None => MemberStep::CheckExit { handle: fd },
                    Some(ExitOutcome::Failed(fault)) => MemberStep::Fail(fault),
                    Some(ExitOutcome::Exited) => MemberStep::Skip,
                    Some(ExitOutcome::Running) => match seen.after {
                        None => MemberStep::ReadStatAgain { pid },
                        Some(StatOutcome::Gone) => MemberStep::Skip,
                        Some(StatOutcome::Failed(fault)) => MemberStep::Fail(fault),
                        Some(StatOutcome::Read(after)) => if after.start != before.start || after.session
                            != before.session {
                            MemberStep::Skip
                        } else {
                            MemberStep::Member(fd)
                        },
                    },
                },
            }
        },
    }
}

/// What is done next with a process that may be a member of a session.
pub fn look_at_process(session: i32, pid: i32, seen: MemberEvidence) -> (step: MemberStep)
    ensures
        step == member_step(session, pid, seen),
{
    match seen.before {
        None => MemberStep::ReadStat { pid },
        Some(StatOutcome::Gone) => MemberStep::Skip,
        Some(StatOutcome::Failed(fault)) => MemberStep::Fail(fault),
        Some(StatOutcome::Read(before)) => {
            if before.session != session {
                return MemberStep::Skip;
            }
            match seen.opened {
                None => MemberStep::OpenHandle { pid },
                Some(HandleOutcome::Gone) => MemberStep::Skip,
                Some(HandleOutcome::Failed(fault)) => MemberStep::Fail(fault),
                Some(HandleOutcome::Opened(fd)) => match seen.exited {
                    None => MemberStep::CheckExit { handle: fd },
                    Some(ExitOutcome::Failed(fault)) => MemberStep::Fail(fault),
                    Some(ExitOutcome::Exited) => MemberStep::Skip,
                    Some(ExitOutcome::Running) => match seen.after {
                        None => MemberStep::ReadStatAgain { pid },
                        Some(StatOutcome::Gone) => MemberStep::Skip,
                        Some(StatOutcome::Failed(fault)) => MemberStep::Fail(fault),
                        Some(StatOutcome::Read(after)) => {
                            if after.start != before.start || after.session != before.session {
                                MemberStep::Skip
                            } else {
                                MemberStep::Member(fd)
                            }
                        },
                    },
                },
            }
        },
    }
}

/// A handle counts as a member only where the process was in the session and the
/// same one before and after the handle was opened: a number that was used again
/// never does.
pub proof fn law_members_keep_their_identity(session: i32, pid: i32, seen: MemberEvidence, fd: i32)
    requires
        member_step(session, pid, seen) == MemberStep::Member(fd),
    ensures
        seen.opened == Some(HandleOutcome::Opened(fd)),
        seen.before matches Some(StatOutcome::Read(before)) && seen.after matches Some(StatOutcome::Read(after))
            && before.session == session && after.session == session && before.start == after.start,
{
}

/// What is done next with a task that is to be stopped.
#[derive(Clone, Copy, Debug, PartialEq, Eq, Structural)]
pub enum StopStep {
    ReadStat { tid: i32 },
    /// Open a handle on the task alone.
    OpenHandle { tid: i32 },
    ReadStatAgain { tid: i32 },
    Skip,
    Fail(DomainFault),
    /// The stop signal goes to this handle.
    Stop { handle: i32, signal: i32 },
}

/// What is done next with a task that is to be stopped.
pub open spec fn stop_step(session: i32, tid: i32, seen: MemberEvidence) -> StopStep {
    match seen.before {
        None => StopStep::ReadStat { tid },
        Some(StatOutcome::Gone) => StopStep::Skip,
        Some(StatOutcome::Failed(fault)) => StopStep::Fail(fault),
        Some(StatOutcome::Read(before)) => match seen.opened {
            None => StopStep::OpenHandle { tid },
            Some(HandleOutcome::Gone) => StopStep::Skip,
            Some(HandleOutcome::Failed(fault)) => StopStep::Fail(fault),
            Some(HandleOutcome::Opened(fd)) => match seen.after {
                None => StopStep::ReadStatAgain { tid },
                Some(StatOutcome::Gone) => StopStep::Skip,
                Some(StatOutcome::Failed(fault)) => StopStep::Fail(fault),
                Some(StatOutcome::Read(after)) => if before.start == after.start && after.session == session {
                    StopStep::Stop { handle: fd, signal: SIGSTOP }
                } else {
                    StopStep::Skip
                },
            },
        },
    }
}

/// What is done next with a task that is to be stopped.
pub fn stop_task(session: i32, tid: i32, seen: MemberEvidence) -> (step: StopStep)
    ensures
        step == stop_step(session, tid, seen),
{
    match seen.before {
        None => StopStep::ReadStat { tid },
        Some(StatOutcome::Gone) => StopStep::Skip,
        Some(StatOutcome::Failed(fault)) => StopStep::Fail(fault),
        Some(StatOutcome::Read(before)) => match seen.opened {
            None => StopStep::OpenHandle { tid },
            Some(HandleOutcome::Gone) => StopStep::Skip,
            Some(HandleOutcome::Failed(fault)) => StopStep::Fail(fault),
            Some(HandleOutcome::Opened(fd)) => match seen.after {
                None => StopStep::ReadStatAgain { tid },
                Some(StatOutcome::Gone) => StopStep::Skip,
                Some(StatOutcome::Failed(fault)) => StopStep::Fail(fault),
                Some(StatOutcome::Read(after)) => {
                    if before.start == after.start && after.session == session {
                        StopStep::Stop { handle: fd, signal: SIGSTOP }
                    } else {
                        StopStep::Skip
                    }
                },
            },
        },
    }
}

/// Whether a task in a state does not run: stopped, or dead.
pub open spec fn is_still(state: u8) -> bool {
    state == 0x54 || is_dead(state)
}

/// Whether a task in a state is dead.
pub open spec fn is_dead(state: u8) -> bool {
    state == 0x5a || state == 0x58
}

/// Whether a task does not keep its session from being frozen: it does not run,
/// is gone, or waits at the notification gate.
pub fn task_stoppable(look: StatOutcome, is_held: bool) -> (result: Result<bool, DomainFault>)
    ensures
        result == match look {
            StatOutcome::Read(stat) => Ok::<bool, DomainFault>(is_still(stat.state) || is_held),
            StatOutcome::Gone => Ok::<bool, DomainFault>(true),
            StatOutcome::Failed(fault) => Err::<bool, DomainFault>(fault),
        },
{
    match look {
        StatOutcome::Read(stat) => Ok(stat.state == 0x54 || stat.state == 0x5a || stat.state == 0x58 || is_held),
        StatOutcome::Gone => Ok(true),
        StatOutcome::Failed(fault) => Err(fault),
    }
}

/// The number that the name of an entry writes.
pub open spec fn entry_number(name: Seq<u8>) -> Option<i32> {
    match text::signed(name) {
        Some(number) if i32::MIN <= number <= i32::MAX => Some(number as i32),
        _ => None,
    }
}

/// A walk over the processes and their tasks, within its budget.
#[derive(Debug)]
pub struct Scan {
    entries: usize,
    tasks: usize,
}

/// How far a walk is.
pub struct ScanView {
    pub entries: int,
    pub tasks: int,
}

impl View for Scan {
    type V = ScanView;

    closed spec fn view(&self) -> ScanView {
        ScanView { entries: self.entries as int, tasks: self.tasks as int }
    }
}

impl Scan {
    /// A walk at its start.
    pub fn new() -> (scan: Scan)
        ensures
            scan@ == (ScanView { entries: 0, tasks: 0 }),
    {
        Scan { entries: 0, tasks: 0 }
    }

    /// Takes the next entry; tells the process where its name is a number.
    pub fn process(&mut self, name: &[u8]) -> (result: Result<Option<i32>, DomainFault>)
        ensures
            if old(self)@.entries >= MAX_PROC_ENTRIES {
                result == Err::<Option<i32>, DomainFault>(DomainFault::EnumerationBudget) && final(self)@ == old(self)@
            } else {
                &&& result == Ok::<Option<i32>, DomainFault>(entry_number(name@))
                &&& final(self)@ == (ScanView { entries: old(self)@.entries + 1, ..old(self)@ })
            },
    {
        if self.entries >= MAX_PROC_ENTRIES {
            return Err(DomainFault::EnumerationBudget);
        }
        self.entries = self.entries + 1;
        Ok(parse_i32(name))
    }

    /// Takes the next task of a process; tells its number.
    pub fn task(&mut self, name: &[u8]) -> (result: Result<i32, DomainFault>)
        ensures
            if old(self)@.tasks >= MAX_TASKS {
                result == Err::<i32, DomainFault>(DomainFault::TaskBudget) && final(self)@ == old(self)@
            } else {
                &&& final(self)@ == (ScanView { tasks: old(self)@.tasks + 1, ..old(self)@ })
                &&& result == match entry_number(name@) {
                    Some(tid) => Ok::<i32, DomainFault>(tid),
                    None => Err::<i32, DomainFault>(DomainFault::InvalidStat),
                }
            },
    {
        if self.tasks >= MAX_TASKS {
            return Err(DomainFault::TaskBudget);
        }
        self.tasks = self.tasks + 1;
        match parse_i32(name) {
            Some(tid) => Ok(tid),
            None => Err(DomainFault::InvalidStat),
        }
    }

    /// Takes a member into account.
    pub fn member(&mut self) -> (result: Result<(), DomainFault>)
        ensures
            if old(self)@.tasks >= MAX_TASKS {
                result == Err::<(), DomainFault>(DomainFault::TaskBudget) && final(self)@ == old(self)@
            } else {
                result is Ok && final(self)@ == (ScanView { tasks: old(self)@.tasks + 1, ..old(self)@ })
            },
    {
        if self.tasks >= MAX_TASKS {
            return Err(DomainFault::TaskBudget);
        }
        self.tasks = self.tasks + 1;
        Ok(())
    }
}

/// A process is taken for a member step by step: it is read, a handle is opened on it, it
/// still runs behind the handle, and it is read once more; whatever shows that it is gone,
/// or that it is no member, skips it, and any other failure is told.
pub proof fn law_members_are_found_step_by_step(
    session: i32,
    pid: i32,
    handle: i32,
    before: task_stat::TaskStat,
    after: task_stat::TaskStat,
    fault: DomainFault,
)
    ensures
        ({
            let nothing = MemberEvidence { before: None, opened: None, exited: None, after: None };
            let read = MemberEvidence { before: Some(StatOutcome::Read(before)), ..nothing };
            let opened = MemberEvidence { opened: Some(HandleOutcome::Opened(handle)), ..read };
            let running = MemberEvidence { exited: Some(ExitOutcome::Running), ..opened };
            let again = MemberEvidence { after: Some(StatOutcome::Read(after)), ..running };
            let told = |seen: MemberEvidence| member_step(session, pid, seen);
            &&& told(nothing) == (MemberStep::ReadStat { pid })
            &&& told(MemberEvidence { before: Some(StatOutcome::Gone), ..nothing }) == MemberStep::Skip
            &&& told(MemberEvidence { before: Some(StatOutcome::Failed(fault)), ..nothing }) == MemberStep::Fail(fault)
            &&& before.session != session ==> told(read) == MemberStep::Skip
            &&& before.session == session ==> {
                &&& told(read) == (MemberStep::OpenHandle { pid })
                &&& told(MemberEvidence { opened: Some(HandleOutcome::Gone), ..read }) == MemberStep::Skip
                &&& told(MemberEvidence { opened: Some(HandleOutcome::Failed(fault)), ..read }) == MemberStep::Fail(
                    fault,
                )
                &&& told(opened) == (MemberStep::CheckExit { handle })
                &&& told(MemberEvidence { exited: Some(ExitOutcome::Exited), ..opened }) == MemberStep::Skip
                &&& told(MemberEvidence { exited: Some(ExitOutcome::Failed(fault)), ..opened }) == MemberStep::Fail(
                    fault,
                )
                &&& told(running) == (MemberStep::ReadStatAgain { pid })
                &&& told(MemberEvidence { after: Some(StatOutcome::Gone), ..running }) == MemberStep::Skip
                &&& told(MemberEvidence { after: Some(StatOutcome::Failed(fault)), ..running }) == MemberStep::Fail(
                    fault,
                )
                &&& told(again) == if after.session == session && after.start == before.start {
                    MemberStep::Member(handle)
                } else {
                    MemberStep::Skip
                }
            }
        }),
{
}

/// A task is stopped through a handle on itself, and only where it is still the task that
/// was read and stands in the session.
pub proof fn law_only_the_session_is_stopped(session: i32, tid: i32, seen: MemberEvidence, fault: DomainFault)
    ensures
        seen.before is None ==> stop_step(session, tid, seen) == (StopStep::ReadStat { tid }),
        seen.before == Some(StatOutcome::Gone) ==> stop_step(session, tid, seen) == StopStep::Skip,
        seen.before == Some(StatOutcome::Failed(fault)) ==> stop_step(session, tid, seen) == StopStep::Fail(fault),
        (seen.before matches Some(StatOutcome::Read(before)) && seen.opened is None) ==> stop_step(session, tid, seen)
            == (StopStep::OpenHandle { tid }),
        (seen.before matches Some(StatOutcome::Read(before)) && (seen.opened matches Some(HandleOutcome::Opened(_)))
            && seen.after is None) ==> stop_step(session, tid, seen) == (StopStep::ReadStatAgain { tid }),
        stop_step(session, tid, seen) matches StopStep::Stop { handle, signal } ==> {
            &&& signal == 19
            &&& seen.opened == Some(HandleOutcome::Opened(handle))
            &&& seen.before matches Some(StatOutcome::Read(before)) && seen.after matches Some(StatOutcome::Read(after))
                && before.start == after.start && after.session == session
        },
        (seen.before matches Some(StatOutcome::Read(before)) && (seen.opened matches Some(HandleOutcome::Opened(_)))
            && (seen.after matches Some(StatOutcome::Read(after)) && before.start == after.start && after.session
            == session)) ==> stop_step(session, tid, seen) is Stop,
{
}

/// A task stands still where it is stopped, a zombie or dead, and in no other state; the
/// last two have ended.
pub proof fn law_still_tasks_do_not_run(state: u8)
    ensures
        is_dead(state) <==> state == 0x5a || state == 0x58,
        is_still(state) <==> state == 0x54 || state == 0x5a || state == 0x58,
{
}

/// The entry of a process or a task is its number in decimal.
pub proof fn law_entries_are_named_by_their_number(number: i32)
    ensures
        entry_number(text::signed_digits(number as int)) == Some(number),
{
    text::law_signed_reads_back(number as int);
}

} // verus!
