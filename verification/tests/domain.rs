use sandlock_core::execution_domain::diagnostic::{add_task, start_diagnostic};
use sandlock_core::execution_domain::freeze::{
    detach, identity_exited, next_task, seize, wait_for_stop, SeizeEvidence, SeizeStep, WaitLook, WaitStep,
};
use sandlock_core::execution_domain::gate::{Admission, NotificationGate, MAX_HELD_NOTIFICATIONS};
use sandlock_core::execution_domain::members::{
    handle_outcome, look_at_process, stat_outcome, stop_task, task_stoppable, ExitOutcome, HandleOutcome,
    MemberEvidence, MemberStep, Scan, StatOutcome, StopStep, MAX_TASKS,
};
use sandlock_core::execution_domain::{
    gone, send, validate_anchor, AnchorLook, DomainAction, DomainEvent, DomainFault, ExecutionDomain,
    ExecutionDomainDescriptor,
};
use sandlock_core::seccomp::{SeccompData, SeccompNotif};
use sandlock_core::sys::{EINTR, EPERM, ESRCH};
use sandlock_core::task_stat::TaskStat;

const SESSION: i32 = 70;

fn stat(state: u8, session: i32, start: u64) -> TaskStat {
    TaskStat { state, session, start }
}

fn anchor() -> StatOutcome {
    StatOutcome::Read(stat(b'S', SESSION, 5))
}

fn domain() -> ExecutionDomain {
    ExecutionDomain::capture(SESSION, false, anchor(), None, AnchorLook { stat: anchor(), answers: true }).unwrap()
}

fn notif(id: u64, pid: u32) -> SeccompNotif {
    SeccompNotif {
        id,
        pid,
        flags: 0,
        data: SeccompData { nr: 1, arch: 0, instruction_pointer: 0, args: [0; 6] },
    }
}

#[test]
fn anchors_lead_their_own_session() {
    let opened = domain();
    assert_eq!(opened.descriptor(), ExecutionDomainDescriptor { session_id: SESSION, anchor_start_time: 5 });
    assert!(!opened.is_terminating() && !opened.is_retired());
    assert_eq!(ExecutionDomain::captured(SESSION + 1, anchor()), Err(DomainFault::NotOwnSession));
    let descriptor = opened.descriptor();
    let look = |state, answers| AnchorLook { stat: state, answers };
    assert_eq!(validate_anchor(descriptor, look(anchor(), true)), Ok(()));
    assert_eq!(validate_anchor(descriptor, look(anchor(), false)), Err(DomainFault::AnchorReaped));
    assert_eq!(validate_anchor(descriptor, look(StatOutcome::Gone, true)), Err(DomainFault::AnchorUnavailable));
    let other = StatOutcome::Read(stat(b'S', SESSION, 6));
    assert_eq!(validate_anchor(descriptor, look(other, true)), Err(DomainFault::AnchorChanged));
    let none = ExecutionDomainDescriptor { session_id: 0, anchor_start_time: 5 };
    assert_eq!(ExecutionDomain::open(none, None, look(anchor(), true)).err(), Some(DomainFault::InvalidStat));
    assert_eq!(
        ExecutionDomain::open(descriptor, Some(EPERM), look(anchor(), true)).err(),
        Some(DomainFault::Failed(EPERM))
    );
}

#[test]
fn signals_to_the_dead_are_sent() {
    assert!(gone(ESRCH));
    assert!(!gone(EPERM));
    assert_eq!(send(None), Ok(()));
    assert_eq!(send(Some(ESRCH)), Ok(()));
    assert_eq!(send(Some(EPERM)), Err(DomainFault::Failed(EPERM)));
}

#[test]
fn a_teardown_ends_when_no_member_is_left() {
    let mut torn = domain();
    assert!(matches!(torn.terminate_and_wait(DomainEvent::Begin), DomainAction::ListMembers));
    assert!(torn.is_terminating());
    assert!(matches!(torn.terminate_and_wait(DomainEvent::Listed(Ok(2))), DomainAction::KillMembers));
    assert!(matches!(torn.terminate_and_wait(DomainEvent::Sent(Ok(()))), DomainAction::ReadClock));
    assert!(matches!(torn.terminate_and_wait(DomainEvent::Clock { is_late: false }), DomainAction::Wait));
    assert!(!torn.is_retired());
    assert!(matches!(torn.terminate_and_wait(DomainEvent::Listed(Ok(0))), DomainAction::Finish(Ok(()))));
    assert!(torn.is_retired());
    assert!(matches!(torn.terminate_and_wait(DomainEvent::Begin), DomainAction::Finish(Ok(()))));
}

#[test]
fn a_teardown_that_takes_too_long_is_told() {
    let mut torn = domain();
    torn.terminate_and_wait(DomainEvent::Begin);
    assert!(matches!(
        torn.terminate_and_wait(DomainEvent::Clock { is_late: true }),
        DomainAction::Finish(Err(DomainFault::TimedOut))
    ));
    assert!(matches!(
        torn.terminate_and_wait(DomainEvent::Listed(Err(DomainFault::EnumerationBudget))),
        DomainAction::Finish(Err(DomainFault::EnumerationBudget))
    ));
}

#[test]
fn paused_domains_hold_their_notifications() {
    let mut paused = domain();
    assert_eq!(paused.enter(notif(1, 80), &vec![1]), Admission::Run);
    assert!(matches!(paused.pause(false, DomainEvent::Begin), DomainAction::ReadClock));
    paused.leave();
    assert!(matches!(paused.pause(false, DomainEvent::Woke), DomainAction::StopMembers));
    assert!(matches!(paused.pause(false, DomainEvent::Stopped(Ok(()))), DomainAction::LookAtTasks));
    assert!(matches!(paused.pause(false, DomainEvent::Settled(Ok(true))), DomainAction::SeizeTasks));
    assert!(matches!(paused.pause(false, DomainEvent::Seized(Ok(()))), DomainAction::Finish(Ok(()))));
    assert_eq!(paused.enter(notif(2, 81), &vec![2]), Admission::Held);
    assert!(!paused.holds(81, &vec![2]));
    assert!(matches!(paused.release_pause(false, DomainEvent::Begin), DomainAction::ReleaseTasks));
    assert!(matches!(paused.release_pause(false, DomainEvent::Released(Ok(()))), DomainAction::ContinueMembers));
    assert!(matches!(paused.release_pause(false, DomainEvent::Sent(Ok(()))), DomainAction::Finish(Ok(()))));
    assert_eq!(paused.pop().map(|held| held.id), Some(2));
}

#[test]
fn the_pauses_of_a_domain_are_independent() {
    let mut paused = domain();
    paused.pause(false, DomainEvent::Begin);
    paused.pause(true, DomainEvent::Begin);
    assert!(matches!(paused.release_pause(false, DomainEvent::Begin), DomainAction::Finish(Ok(()))));
    assert_eq!(paused.enter(notif(1, 80), &vec![1]), Admission::Held);
    assert!(matches!(paused.release_pause(true, DomainEvent::Begin), DomainAction::ContinueMembers));
    paused.release_pause(true, DomainEvent::Sent(Ok(())));
    assert_eq!(paused.enter(notif(3, 80), &vec![3]), Admission::Run);
}

#[test]
fn terminating_domains_are_not_continued() {
    let mut torn = domain();
    torn.pause(false, DomainEvent::Begin);
    torn.signal(9);
    assert!(torn.is_terminating());
    assert!(matches!(torn.release_pause(false, DomainEvent::Begin), DomainAction::Finish(Ok(()))));
    assert!(matches!(torn.signalled(15, Err(DomainFault::TaskBudget)), DomainAction::Finish(Err(DomainFault::TaskBudget))));
    assert!(matches!(torn.signalled(9, Ok(())), DomainAction::Finish(Ok(()))));
}

#[test]
fn held_notifications_leave_in_order_and_are_bounded() {
    let mut closed = NotificationGate::default();
    assert!(closed.idle() && !closed.is_killable());
    closed.close();
    let live: Vec<u64> = (0..MAX_HELD_NOTIFICATIONS as u64).collect();
    for id in 0..MAX_HELD_NOTIFICATIONS as u64 {
        assert_eq!(closed.enter(notif(id, 9), &live), Admission::Held);
    }
    assert_eq!(closed.enter(notif(9999, 9), &live), Admission::Full);
    assert_eq!(closed.held_ids(), live);
    assert!(!closed.holds(9, &live));
    closed.set_killable(true);
    assert!(closed.holds(9, &live));
    assert!(!closed.holds(9, &vec![]) && !closed.holds(10, &live));
    closed.open();
    for id in 0..3 {
        assert_eq!(closed.pop().map(|held| held.id), Some(id));
    }
}

#[test]
fn members_keep_their_identity() {
    let mut seen = MemberEvidence { before: None, opened: None, exited: None, after: None };
    assert_eq!(look_at_process(SESSION, 41, seen), MemberStep::ReadStat { pid: 41 });
    seen.before = Some(anchor());
    assert_eq!(look_at_process(SESSION, 41, seen), MemberStep::OpenHandle { pid: 41 });
    assert_eq!(look_at_process(SESSION + 1, 41, seen), MemberStep::Skip);
    seen.opened = Some(handle_outcome(Ok(4)));
    assert_eq!(look_at_process(SESSION, 41, seen), MemberStep::CheckExit { handle: 4 });
    seen.exited = Some(ExitOutcome::Running);
    assert_eq!(look_at_process(SESSION, 41, seen), MemberStep::ReadStatAgain { pid: 41 });
    seen.after = Some(StatOutcome::Read(stat(b'S', SESSION, 6)));
    assert_eq!(look_at_process(SESSION, 41, seen), MemberStep::Skip);
    seen.after = Some(anchor());
    assert_eq!(look_at_process(SESSION, 41, seen), MemberStep::Member(4));
    assert_eq!(stop_task(SESSION, 42, seen), StopStep::Stop { handle: 4, signal: 19 });
    seen.after = Some(StatOutcome::Gone);
    assert_eq!(stop_task(SESSION, 42, seen), StopStep::Skip);
}

#[test]
fn outcomes_of_the_process_filesystem_are_told_apart() {
    assert_eq!(stat_outcome(&Err(ESRCH)), StatOutcome::Gone);
    assert_eq!(stat_outcome(&Err(EPERM)), StatOutcome::Failed(DomainFault::Failed(EPERM)));
    assert_eq!(stat_outcome(&Ok("garbage".to_string())), StatOutcome::Failed(DomainFault::InvalidStat));
    assert_eq!(handle_outcome(Err(ESRCH)), HandleOutcome::Gone);
    assert_eq!(task_stoppable(StatOutcome::Read(stat(b'T', 1, 1)), false), Ok(true));
    assert_eq!(task_stoppable(StatOutcome::Read(stat(b'R', 1, 1)), false), Ok(false));
    assert_eq!(task_stoppable(StatOutcome::Read(stat(b'S', 1, 1)), true), Ok(true));
    let mut scan = Scan::new();
    assert_eq!(scan.process(b"12"), Ok(Some(12)));
    assert_eq!(scan.process(b"meminfo"), Ok(None));
    for _ in 0..MAX_TASKS {
        assert!(scan.member().is_ok());
    }
    assert_eq!(scan.member(), Err(DomainFault::TaskBudget));
}

#[test]
fn only_tasks_of_the_session_are_seized() {
    let mut seen =
        SeizeEvidence { before: None, opened: None, seized: None, current: None, interrupted: None, stopped: None };
    assert_eq!(seize(SESSION, 42, false, seen), SeizeStep::ReadStat { tid: 42 });
    seen.before = Some(StatOutcome::Read(stat(b'S', SESSION + 1, 5)));
    assert_eq!(seize(SESSION, 42, false, seen), SeizeStep::Done);
    seen.before = Some(anchor());
    assert_eq!(seize(SESSION, 42, true, seen), SeizeStep::OpenHandle { tid: 42 });
    assert_eq!(seize(SESSION, 42, false, seen), SeizeStep::Seize { tid: 42 });
    seen.seized = Some(None);
    assert_eq!(seize(SESSION, 42, false, seen), SeizeStep::ReadStatAgain { tid: 42 });
    seen.current = Some(StatOutcome::Read(stat(b'S', SESSION, 6)));
    assert_eq!(seize(SESSION, 42, false, seen), SeizeStep::Fail(DomainFault::TaskChanged));
    seen.current = Some(anchor());
    assert_eq!(seize(SESSION, 42, false, seen), SeizeStep::Interrupt { tid: 42 });
    seen.interrupted = Some(None);
    assert_eq!(seize(SESSION, 42, false, seen), SeizeStep::Wait { tid: 42 });
    assert_eq!(next_task(MAX_TASKS, b"7"), Err(DomainFault::TaskBudget));
    assert_eq!(next_task(MAX_TASKS - 1, b"7"), Ok(7));
    assert_eq!(next_task(0, b"seven"), Err(DomainFault::InvalidStat));
}

#[test]
fn waits_end_with_a_trap_or_an_exit() {
    let look = WaitLook { is_trapped: false, exited: Ok(false), errno: None, is_late: false };
    assert_eq!(wait_for_stop(look), WaitStep::Again);
    assert_eq!(wait_for_stop(WaitLook { is_trapped: true, ..look }), WaitStep::Done);
    assert_eq!(wait_for_stop(WaitLook { exited: Ok(true), ..look }), WaitStep::Done);
    assert_eq!(wait_for_stop(WaitLook { errno: Some(EINTR), ..look }), WaitStep::Again);
    assert_eq!(wait_for_stop(WaitLook { errno: Some(EPERM), ..look }), WaitStep::Fail(DomainFault::Failed(EPERM)));
    assert_eq!(wait_for_stop(WaitLook { is_late: true, ..look }), WaitStep::Fail(DomainFault::TimedOut));
    assert_eq!(identity_exited(StatOutcome::Read(stat(b'Z', 1, 1))), Ok(true));
    assert_eq!(identity_exited(anchor()), Ok(false));
    assert_eq!(detach(&vec![None, Some(EPERM), Some(ESRCH)]), Err(DomainFault::Failed(EPERM)));
    assert_eq!(detach(&vec![None, Some(ESRCH)]), Ok(()));
}

#[test]
fn diagnostics_name_each_task_and_its_state() {
    let mut bytes = start_diagnostic(70, 1, 2);
    assert!(add_task(&mut bytes, b"71", "Name:\tx\nState:\tS (sleeping)\nTracerPid:\t0\n"));
    assert_eq!(String::from_utf8(bytes).unwrap(), "sid=70 active=1 held=2 [71 State:\tS (sleeping) TracerPid:\t0]");
    let mut long = vec![b'x'; 4097];
    assert!(!add_task(&mut long, b"71", "State:\tS\n"));
    assert_eq!(long.len(), 4097);
}
