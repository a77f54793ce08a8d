//! A freeze of a session: each task is seized and held until the release.

use crate::execution_domain::members;
use crate::execution_domain::members::{HandleOutcome, StatOutcome};
use crate::execution_domain::{gone, is_gone, DomainFault, SIGSTOP};
use crate::sys::EINTR;
use crate::text::parse_i32;
use vstd::prelude::*;

verus! {

/// Takes the next task of a process that is frozen; tells its number. Only the
/// tasks that were seized count against the budget.
pub fn next_task(seized: usize, name: &[u8]) -> (result: Result<i32, DomainFault>)
    ensures
        result == if seized >= members::MAX_TASKS {
            Err::<i32, DomainFault>(DomainFault::TaskBudget)
        } else {
            match members::entry_number(name@) {
                Some(tid) => Ok::<i32, DomainFault>(tid),
                None => Err::<i32, DomainFault>(DomainFault::InvalidStat),
            }
        },
{
    if seized >= members::MAX_TASKS {
        return Err(DomainFault::TaskBudget);
    }
    match parse_i32(name) {
        Some(tid) => Ok(tid),
        None => Err(DomainFault::InvalidStat),
    }
}

/// What was seen of a task that is to be seized. Errors are the numbers of the
/// system.
#[derive(Clone, Copy, Debug, PartialEq, Eq, Structural)]
pub struct SeizeEvidence {
    /// The task as its pinned identity told it at first.
    pub before: Option<StatOutcome>,
    pub opened: Option<HandleOutcome>,
    /// The error of the seizure; none where it succeeded.
    pub seized: Option<Option<i32>>,
    /// The task once it was seized.
    pub current: Option<StatOutcome>,
    /// The error of the interruption; none where it succeeded.
    pub interrupted: Option<Option<i32>>,
    /// The error of the stop signal; none where it was sent.
    pub stopped: Option<Option<i32>>,
}

/// What is done next with a task that is to be seized.
#[derive(Clone, Copy, Debug, PartialEq, Eq, Structural)]
pub enum SeizeStep {
    /// Pin the identity of the task and read it.
    ReadStat { tid: i32 },
    /// Open a handle on the task alone.
    OpenHandle { tid: i32 },
    /// Seize the task, which dies with the one that seized it.
    Seize { tid: i32 },
    /// Read the identity that was pinned.
    ReadStatAgain { tid: i32 },
    Interrupt { tid: i32 },
    /// Send the stop signal to this handle.
    SendStop { handle: i32, signal: i32 },
    /// Wait until the task is held.
    Wait { tid: i32 },
    /// There is nothing more to hold.
    Done,
    Fail(DomainFault),
}

/// The end of a step that may find the task gone.
pub open spec fn done_if_gone(errno: i32) -> SeizeStep {
    if is_gone(errno) {
        SeizeStep::Done
    } else {
        SeizeStep::Fail(DomainFault::Failed(errno))
    }
}

fn end_if_gone(errno: i32) -> (step: SeizeStep)
    ensures
        step == done_if_gone(errno),
{
    if gone(errno) {
        SeizeStep::Done
    } else {
        SeizeStep::Fail(DomainFault::Failed(errno))
    }
}

/// What is done next once a task was seized.
pub open spec fn held_step(session: i32, tid: i32, start: u64, handle: Option<i32>, seen: SeizeEvidence) -> SeizeStep {
    match seen.current {
        None => SeizeStep::ReadStatAgain { tid },
        Some(StatOutcome::Gone) => SeizeStep::Fail(DomainFault::TaskGone),
        Some(StatOutcome::Failed(fault)) => SeizeStep::Fail(fault),
        Some(StatOutcome::Read(current)) => if current.session != session || current.start != start {
            SeizeStep::Fail(DomainFault::TaskChanged)
        } else {
            match seen.interrupted {
                None => SeizeStep::Interrupt { tid },
                Some(Some(errno)) => done_if_gone(errno),
                Some(None) => match handle {
                    None => SeizeStep::Wait { tid },
                    Some(fd) => match seen.stopped {
                        None => SeizeStep::SendStop { handle: fd, signal: SIGSTOP },
                        Some(Some(errno)) => if is_gone(errno) {
                            SeizeStep::Wait { tid }
                        } else {
                            SeizeStep::Fail(DomainFault::Failed(errno))
                        },
                        Some(None) => SeizeStep::Wait { tid },
                    },
                },
            }
        },
    }
}

/// What is done next with a task that is to be seized. A task that is not of the
/// session, or is dead, is let alone; one that changed its identity once it was
/// seized is a failure.
pub open spec fn seize_step(session: i32, tid: i32, killable_recv: bool, seen: SeizeEvidence) -> SeizeStep {
    match seen.before {
        None => SeizeStep::ReadStat { tid },
        Some(StatOutcome::Gone) => SeizeStep::Done,
        Some(StatOutcome::Failed(fault)) => SeizeStep::Fail(fault),
        Some(StatOutcome::Read(before)) => if before.session != session || members::is_dead(before.state) {
            SeizeStep::Done
        } else if killable_recv {
            match seen.opened {
                None => SeizeStep::OpenHandle { tid },
                Some(HandleOutcome::Gone) => SeizeStep::Done,
                Some(HandleOutcome::Failed(fault)) => SeizeStep::Fail(fault),
                Some(HandleOutcome::Opened(fd)) => match seen.seized {
                    None => SeizeStep::Seize { tid },
                    Some(Some(errno)) => done_if_gone(errno),
                    Some(None) => held_step(session, tid, before.start, Some(fd), seen),
                },
            }
        } else {
            match seen.seized {
                None => SeizeStep::Seize { tid },
                Some(Some(errno)) => done_if_gone(errno),
                Some(None) => held_step(session, tid, before.start, None, seen),
            }
        },
    }
}

fn step_once_held(session: i32, tid: i32, start: u64, handle: Option<i32>, seen: SeizeEvidence) -> (step: SeizeStep)
    ensures
        step == held_step(session, tid, start, handle, seen),
{
    match seen.current {
        None => SeizeStep::ReadStatAgain { tid },
        Some(StatOutcome::Gone) => SeizeStep::Fail(DomainFault::TaskGone),
        Some(StatOutcome::Failed(fault)) => SeizeStep::Fail(fault),
        Some(StatOutcome::Read(current)) => {
            if current.session != session || current.start != start {
                return SeizeStep::Fail(DomainFault::TaskChanged);
            }
            match seen.interrupted {
                None => SeizeStep::Interrupt { tid },
                Some(Some(errno)) => end_if_gone(errno),
                Some(None) => match handle {
                    None => SeizeStep::Wait { tid },
                    Some(fd) => match seen.stopped {
                        None => SeizeStep::SendStop { handle: fd, signal: SIGSTOP },
                        Some(Some(errno)) => {
                            if gone(errno) {
                                SeizeStep::Wait { tid }
                            } else {
                                SeizeStep::Fail(DomainFault::Failed(errno))
                            }
                        },
                        Some(None) => SeizeStep::Wait { tid },
                    },
                },
            }
        },
    }
}

/// What is done next with a task that is to be seized.
pub fn seize(session: i32, tid: i32, killable_recv: bool, seen: SeizeEvidence) -> (step: SeizeStep)
    ensures
        step == seize_step(session, tid, killable_recv, seen),
{
    match seen.before {
        None => SeizeStep::ReadStat { tid },
        Some(StatOutcome::Gone) => SeizeStep::Done,
        Some(StatOutcome::Failed(fault)) => SeizeStep::Fail(fault),
        Some(StatOutcome::Read(before)) => {
            if before.session != session || before.state == 0x5a || before.state == 0x58 {
                return SeizeStep::Done;
            }
            let handle: Option<i32> = if killable_recv {
                match seen.opened {
                    None => {
                        return SeizeStep::OpenHandle { tid };
                    },
                    Some(HandleOutcome::Gone) => {
                        return SeizeStep::Done;
                    },
                    Some(HandleOutcome::Failed(fault)) => {
                        return SeizeStep::Fail(fault);
                    },
                    Some(HandleOutcome::Opened(fd)) => Some(fd),
                }
            } else {
                None
            };
            match seen.seized {
                None => SeizeStep::Seize { tid },
                Some(Some(errno)) => end_if_gone(errno),
                Some(None) => step_once_held(session, tid, before.start, handle, seen),
            }
        },
    }
}

/// Only a task of the session that kept its identity is interrupted and held.
pub proof fn law_only_the_session_is_held(session: i32, tid: i32, killable_recv: bool, seen: SeizeEvidence)
    requires
        seize_step(session, tid, killable_recv, seen) is Wait || seize_step(session, tid, killable_recv, seen) is Interrupt
            || seize_step(session, tid, killable_recv, seen) is SendStop,
    ensures
        seen.before matches Some(StatOutcome::Read(before)) && seen.current matches Some(StatOutcome::Read(current))
            && before.session == session && current.session == session && before.start == current.start,
        seen.seized == Some(None::<i32>),
{
}

/// How one look at a task that is waited for came out.
#[derive(Clone, Copy, Debug)]
pub struct WaitLook {
    /// Whether the task is held.
    pub is_trapped: bool,
    /// Whether the task is gone; the fault where that could not be told.
    pub exited: Result<bool, DomainFault>,
    /// The error of the look.
    pub errno: Option<i32>,
    pub is_late: bool,
}

/// What follows a look at a task that is waited for.
#[derive(Clone, Copy, Debug, PartialEq, Eq, Structural)]
pub enum WaitStep {
    Done,
    Again,
    Fail(DomainFault),
}

/// What follows a look at a task that is waited for.
pub fn wait_for_stop(look: WaitLook) -> (step: WaitStep)
    ensures
        step == if look.is_trapped {
            WaitStep::Done
        } else {
            match look.exited {
                Err(fault) => WaitStep::Fail(fault),
                Ok(true) => WaitStep::Done,
                Ok(false) => match look.errno {
                    Some(errno) if errno != EINTR => WaitStep::Fail(DomainFault::Failed(errno)),
                    _ => if look.is_late {
                        WaitStep::Fail(DomainFault::TimedOut)
                    } else {
                        WaitStep::Again
                    },
                },
            }
        },
{
    if look.is_trapped {
        return WaitStep::Done;
    }
    match look.exited {
        Err(fault) => WaitStep::Fail(fault),
        Ok(is_gone) => {
            if is_gone {
                return WaitStep::Done;
            }
            match look.errno {
                Some(errno) => {
                    if errno != EINTR {
                        return WaitStep::Fail(DomainFault::Failed(errno));
                    }
                },
                None => {},
            }
            if look.is_late {
                WaitStep::Fail(DomainFault::TimedOut)
            } else {
                WaitStep::Again
            }
        },
    }
}

/// Whether a task without a handle is gone, by its pinned identity.
pub fn identity_exited(look: StatOutcome) -> (result: Result<bool, DomainFault>)
    ensures
        result == match look {
            StatOutcome::Read(stat) => Ok::<bool, DomainFault>(members::is_dead(stat.state)),
            StatOutcome::Gone => Ok::<bool, DomainFault>(true),
            StatOutcome::Failed(fault) => Err::<bool, DomainFault>(fault),
        },
{
    match look {
        StatOutcome::Read(stat) => Ok(stat.state == 0x5a || stat.state == 0x58),
        StatOutcome::Gone => Ok(true),
        StatOutcome::Failed(fault) => Err(fault),
    }
}

/// The last failure among the ends of tasks that were let go: an exited one is
/// none.
pub open spec fn last_failure(errors: Seq<Option<i32>>) -> Option<i32>
    decreases errors.len(),
{
    if errors.len() == 0 {
        None
    } else {
        match errors.last() {
            Some(errno) if !is_gone(errno) => Some(errno),
            _ => last_failure(errors.drop_last()),
        }
    }
}

/// The outcome of letting tasks go, by the error of each in the order in which
/// they were let go. Each is let go, whatever became of the others.
pub fn detach(errors: &Vec<Option<i32>>) -> (result: Result<(), DomainFault>)
    ensures
        result == match last_failure(errors@) {
            Some(errno) => Err::<(), DomainFault>(DomainFault::Failed(errno)),
            None => Ok::<(), DomainFault>(()),
        },
{
    let mut i: usize = errors.len();
    proof {
        assert(errors@.take(i as int) =~= errors@);
    }
    while i > 0
        invariant
            i <= errors@.len(),
            last_failure(errors@) == last_failure(errors@.take(i as int)),
        decreases i,
    {
        proof {
            assert(errors@.take(i as int).last() == errors@[i - 1]);
            assert(errors@.take(i as int).drop_last() =~= errors@.take(i - 1));
        }
        match errors[i - 1] {
            Some(errno) => {
                if !gone(errno) {
                    return Err(DomainFault::Failed(errno));
                }
            },
            None => {},
        }
        i = i - 1;
    }
    Ok(())
}

/// A task is held step by step: its identity is read, it is seized, its identity is read
/// again, it is interrupted, and then waited for; where a notification can only be left by
/// a kill, a handle is opened on it first, and it is stopped through that handle too. A
/// task that is gone at any step is passed over, and any other failure is told.
pub proof fn law_tasks_are_held_step_by_step(
    session: i32,
    tid: i32,
    killable_recv: bool,
    handle: i32,
    known: crate::task_stat::TaskStat,
    errno: i32,
)
    requires
        known.session == session,
        known.state != 0x5a && known.state != 0x58,
    ensures
        ({
            let nothing = SeizeEvidence {
                before: None,
                opened: None,
                seized: None,
                current: None,
                interrupted: None,
                stopped: None,
            };
            let told = |seen: SeizeEvidence| seize_step(session, tid, killable_recv, seen);
            let read = SeizeEvidence { before: Some(StatOutcome::Read(known)), ..nothing };
            let opened = if killable_recv {
                SeizeEvidence { opened: Some(HandleOutcome::Opened(handle)), ..read }
            } else {
                read
            };
            let seized = SeizeEvidence { seized: Some(None::<i32>), ..opened };
            let again = SeizeEvidence { current: Some(StatOutcome::Read(known)), ..seized };
            let interrupted = SeizeEvidence { interrupted: Some(None::<i32>), ..again };
            let stopped = SeizeEvidence { stopped: Some(None::<i32>), ..interrupted };
            let failed = if errno == 2 || errno == 3 {
                SeizeStep::Done
            } else {
                SeizeStep::Fail(DomainFault::Failed(errno))
            };
            &&& told(nothing) == (SeizeStep::ReadStat { tid })
            &&& killable_recv ==> told(read) == (SeizeStep::OpenHandle { tid })
            &&& told(opened) == (SeizeStep::Seize { tid })
            &&& told(SeizeEvidence { seized: Some(Some(errno)), ..opened }) == failed
            &&& told(seized) == (SeizeStep::ReadStatAgain { tid })
            &&& told(again) == (SeizeStep::Interrupt { tid })
            &&& told(SeizeEvidence { interrupted: Some(Some(errno)), ..again }) == failed
            &&& killable_recv ==> told(interrupted) == (SeizeStep::SendStop { handle, signal: 19 })
            &&& !killable_recv ==> told(interrupted) == (SeizeStep::Wait { tid })
            &&& told(stopped) == (SeizeStep::Wait { tid })
        }),
{
}

/// A task of another session, one that has ended and one that is gone are not held; a task
/// that is another one once it is seized is told.
pub proof fn law_strangers_are_not_held(session: i32, tid: i32, killable_recv: bool, seen: SeizeEvidence)
    ensures
        seen.before == Some(StatOutcome::Gone) ==> seize_step(session, tid, killable_recv, seen) == SeizeStep::Done,
        (seen.before matches Some(StatOutcome::Read(before)) && (before.session != session || before.state == 0x5a
            || before.state == 0x58)) ==> seize_step(session, tid, killable_recv, seen) == SeizeStep::Done,
        (seen.before matches Some(StatOutcome::Read(before)) && before.session == session && before.state != 0x5a
            && before.state != 0x58 && !killable_recv && seen.seized == Some(None::<i32>) && (seen.current matches Some(
            StatOutcome::Read(current),
        ) && (current.session != session || current.start != before.start))) ==> seize_step(
            session,
            tid,
            killable_recv,
            seen,
        ) == SeizeStep::Fail(DomainFault::TaskChanged),
{
}

/// Letting tasks go fails exactly where one of them could not be let go though it is there,
/// and the last such error is told.
pub proof fn law_last_failures_are_told(errors: Seq<Option<i32>>)
    ensures
        match last_failure(errors) {
            None => forall|i: int|
                0 <= i < errors.len() ==> ((#[trigger] errors[i]) matches Some(errno) ==> errno == 2 || errno == 3),
            Some(told) => told != 2 && told != 3 && exists|i: int|
                0 <= i < errors.len() && #[trigger] errors[i] == Some(told) && forall|j: int|
                    i < j < errors.len() ==> ((#[trigger] errors[j]) matches Some(errno) ==> errno == 2 || errno == 3),
        },
    decreases errors.len(),
{
    if errors.len() > 0 {
        let rest = errors.drop_last();
        law_last_failures_are_told(rest);
        assert(errors[errors.len() - 1] == errors.last());
        if errors.last() is Some && !is_gone(errors.last()->0) {
            assert(errors[errors.len() - 1] == Some(last_failure(errors)->0));
        } else if last_failure(errors) is None {
            assert forall|i: int| 0 <= i < errors.len() implies ((#[trigger] errors[i]) matches Some(errno) ==> errno == 2
                || errno == 3) by {
                if i < rest.len() {
                    assert(rest[i] == errors[i]);
                }
            }
        } else {
            let told = last_failure(errors)->0;
            let i = choose|i: int|
                0 <= i < rest.len() && #[trigger] rest[i] == Some(told) && forall|j: int|
                    i < j < rest.len() ==> ((#[trigger] rest[j]) matches Some(errno) ==> errno == 2 || errno == 3);
            assert(errors[i] == Some(told));
            assert forall|j: int| i < j < errors.len() implies ((#[trigger] errors[j]) matches Some(errno) ==> errno == 2
                || errno == 3) by {
                if j < rest.len() {
                    assert(rest[j] == errors[j]);
                }
            }
        }
    }
}

} // verus!
