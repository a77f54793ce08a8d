//! The lifecycle of a session: its members are signalled by stable handles, it is
//! paused as a whole, and torn down until nothing of it is left.

pub mod diagnostic;
pub mod freeze;
pub mod gate;
pub mod members;

use crate::execution_domain::gate::NotificationGate;
use crate::execution_domain::members::StatOutcome;
use crate::sys::{ENOENT, ESRCH};
use vstd::prelude::*;

verus! {

/// The identity of a live anchor of a session, which nobody has waited for yet.
#[derive(Clone, Copy, Debug, PartialEq, Eq, Structural)]
pub struct ExecutionDomainDescriptor {
    pub session_id: i32,
    pub anchor_start_time: u64,
}

/// What can go wrong with a session.
#[derive(Clone, Copy, Debug, PartialEq, Eq, Structural)]
pub enum DomainFault {
    InvalidStat,
    NotOwnSession,
    AnchorUnavailable,
    AnchorChanged,
    AnchorReaped,
    EnumerationBudget,
    TaskBudget,
    TaskGone,
    TaskChanged,
    TimedOut,
    /// A call of the system failed with this error.
    Failed(i32),
}

/// Whether an error says that a task is gone.
pub open spec fn is_gone(errno: i32) -> bool {
    errno == ENOENT || errno == ESRCH
}

/// Whether an error says that a task is gone.
pub fn gone(errno: i32) -> (result: bool)
    ensures
        result == is_gone(errno),
{
    errno == ENOENT || errno == ESRCH
}

/// The outcome of a signal: a task that is gone needs none.
pub fn send(errno: Option<i32>) -> (result: Result<(), DomainFault>)
    ensures
        result == match errno {
            Some(error) if !is_gone(error) => Err::<(), DomainFault>(DomainFault::Failed(error)),
            _ => Ok::<(), DomainFault>(()),
        },
{
    match errno {
        Some(error) => {
            if gone(error) {
                Ok(())
            } else {
                Err(DomainFault::Failed(error))
            }
        },
        None => Ok(()),
    }
}

/// What a look at the anchor of a session told.
#[derive(Clone, Copy, Debug, PartialEq, Eq, Structural)]
pub struct AnchorLook {
    pub stat: StatOutcome,
    /// Whether the handle on the anchor still answers.
    pub answers: bool,
}

/// Why a look at an anchor does not find the one that is meant.
pub open spec fn anchor_fault(descriptor: ExecutionDomainDescriptor, look: AnchorLook) -> Option<DomainFault> {
    match look.stat {
        StatOutcome::Read(stat) => if stat.session != descriptor.session_id || stat.start
            != descriptor.anchor_start_time {
            Some(DomainFault::AnchorChanged)
        } else if !look.answers {
            Some(DomainFault::AnchorReaped)
        } else {
            None
        },
        _ => Some(DomainFault::AnchorUnavailable),
    }
}

/// Checks that an anchor is still the one that is meant: a number that was used
/// again is another one.
pub fn validate_anchor(descriptor: ExecutionDomainDescriptor, look: AnchorLook) -> (result: Result<(), DomainFault>)
    ensures
        result == match anchor_fault(descriptor, look) {
            Some(fault) => Err::<(), DomainFault>(fault),
            None => Ok::<(), DomainFault>(()),
        },
{
    match look.stat {
        StatOutcome::Read(stat) => {
            if stat.session != descriptor.session_id || stat.start != descriptor.anchor_start_time {
                Err(DomainFault::AnchorChanged)
            } else if !look.answers {
                Err(DomainFault::AnchorReaped)
            } else {
                Ok(())
            }
        },
        StatOutcome::Gone => Err(DomainFault::AnchorUnavailable),
        StatOutcome::Failed(_) => Err(DomainFault::AnchorUnavailable),
    }
}

/// Controls all process groups of a session.
#[derive(Debug)]
pub struct ExecutionDomain {
    descriptor: ExecutionDomainDescriptor,
    retired: bool,
    terminating: bool,
    manual: bool,
    throttle: bool,
    traced: bool,
    gate: NotificationGate,
}

/// What is known of a session.
#[verifier::ext_equal]
pub struct DomainView {
    pub descriptor: ExecutionDomainDescriptor,
    /// Nothing of it is left.
    pub retired: bool,
    /// It is being torn down.
    pub terminating: bool,
    /// It was paused on request.
    pub manual: bool,
    /// It was paused to hold its load down.
    pub throttle: bool,
    /// Its tasks are held.
    pub traced: bool,
    pub gate: gate::GateView,
}

impl View for ExecutionDomain {
    type V = DomainView;

    closed spec fn view(&self) -> DomainView {
        DomainView {
            descriptor: self.descriptor,
            retired: self.retired,
            terminating: self.terminating,
            manual: self.manual,
            throttle: self.throttle,
            traced: self.traced,
            gate: self.gate@,
        }
    }
}

/// A paused session lets no notification run.
pub open spec fn domain_wf(domain: DomainView) -> bool {
    (domain.manual || domain.throttle ==> domain.gate.closed) && gate::gate_wf(domain.gate)
}

/// A session that was just opened.
pub open spec fn fresh(descriptor: ExecutionDomainDescriptor) -> DomainView {
    DomainView {
        descriptor,
        retired: false,
        terminating: false,
        manual: false,
        throttle: false,
        traced: false,
        gate: gate::GateView { closed: false, active: 0, held: Seq::empty(), killable_recv: false },
    }
}

/// A session with its gate closed.
pub open spec fn with_gate(domain: DomainView, closed: bool) -> DomainView {
    DomainView { gate: gate::GateView { closed, ..domain.gate }, ..domain }
}

pub const SIGKILL: i32 = 9;

pub const SIGSTOP: i32 = 19;

/// A session that is about to be signalled.
pub open spec fn before_signal(domain: DomainView, signal: i32) -> DomainView {
    if signal == SIGKILL {
        DomainView { terminating: true, ..with_gate(domain, true) }
    } else {
        domain
    }
}

/// What comes back from the work on a session.
#[derive(Clone, Copy, Debug)]
pub enum DomainEvent {
    Begin,
    /// A wait is over.
    Woke,
    /// The live members were listed: how many there are.
    Listed(Result<usize, DomainFault>),
    /// Every member was sent the signal.
    Sent(Result<(), DomainFault>),
    /// The tasks that were held were let go.
    Released(Result<(), DomainFault>),
    /// Every task was sent the stop signal.
    Stopped(Result<(), DomainFault>),
    /// The tasks were looked at: whether none runs.
    Settled(Result<bool, DomainFault>),
    /// The tasks were seized.
    Seized(Result<(), DomainFault>),
    Clock { is_late: bool },
}

/// What is done next with a session.
#[derive(Clone, Copy, Debug)]
pub enum DomainAction {
    ListMembers,
    KillMembers,
    ContinueMembers,
    /// Stop each task by its own handle.
    StopTasks,
    /// Stop each process.
    StopMembers,
    LookAtTasks,
    SeizeTasks,
    ReleaseTasks,
    ReadClock,
    Wait,
    Finish(Result<(), DomainFault>),
    /// The pause is given up: it is to be released, and the fault told.
    GiveUp(DomainFault),
}

/// The outcome of signalling the members, once each was sent the signal.
pub open spec fn after_sent(domain: DomainView, signal: i32, sent: Result<(), DomainFault>) -> (DomainView, DomainAction) {
    match sent {
        Err(fault) => (domain, DomainAction::Finish(Err(fault))),
        Ok(_) => if signal == SIGKILL && domain.traced {
            (DomainView { traced: false, ..domain }, DomainAction::ReleaseTasks)
        } else {
            (domain, DomainAction::Finish(Ok(())))
        },
    }
}

/// One step of a teardown.
pub open spec fn teardown_step(domain: DomainView, event: DomainEvent) -> (DomainView, DomainAction) {
    match event {
        DomainEvent::Begin => if domain.retired {
            (domain, DomainAction::Finish(Ok(())))
        } else {
            (before_signal(domain, SIGKILL), DomainAction::ListMembers)
        },
        DomainEvent::Listed(Err(fault)) => (domain, DomainAction::Finish(Err(fault))),
        DomainEvent::Listed(Ok(count)) => if count == 0 && domain.gate.active == 0 {
            (DomainView { retired: true, ..domain }, DomainAction::Finish(Ok(())))
        } else {
            (domain, DomainAction::KillMembers)
        },
        DomainEvent::Sent(Err(fault)) => (domain, DomainAction::Finish(Err(fault))),
        DomainEvent::Sent(Ok(_)) => if domain.traced {
            (DomainView { traced: false, ..domain }, DomainAction::ReleaseTasks)
        } else {
            (domain, DomainAction::ReadClock)
        },
        DomainEvent::Released(Err(fault)) => (domain, DomainAction::Finish(Err(fault))),
        DomainEvent::Released(Ok(_)) => (domain, DomainAction::ReadClock),
        DomainEvent::Clock { is_late } => if is_late {
            (domain, DomainAction::Finish(Err(DomainFault::TimedOut)))
        } else {
            (domain, DomainAction::Wait)
        },
        _ => (domain, DomainAction::ListMembers),
    }
}

/// A session that a pause was asked for.
pub open spec fn pausing(domain: DomainView, throttle: bool) -> DomainView {
    let closed = with_gate(domain, true);
    if throttle {
        DomainView { throttle: true, ..closed }
    } else {
        DomainView { manual: true, ..closed }
    }
}

/// What a pause does next, at its start and after each wait.
pub open spec fn stop_action(domain: DomainView) -> DomainAction {
    if domain.gate.active != 0 {
        DomainAction::ReadClock
    } else if domain.gate.killable_recv {
        DomainAction::StopTasks
    } else {
        DomainAction::StopMembers
    }
}

/// One step of a pause.
pub open spec fn pause_step(domain: DomainView, throttle: bool, event: DomainEvent) -> (DomainView, DomainAction) {
    match event {
        DomainEvent::Begin => (pausing(domain, throttle), stop_action(pausing(domain, throttle))),
        DomainEvent::Woke => (domain, stop_action(domain)),
        DomainEvent::Stopped(Err(fault)) => (domain, DomainAction::GiveUp(fault)),
        DomainEvent::Stopped(Ok(_)) => (domain, DomainAction::LookAtTasks),
        DomainEvent::Settled(Err(fault)) => (domain, DomainAction::GiveUp(fault)),
        DomainEvent::Settled(Ok(false)) => (domain, DomainAction::ReadClock),
        DomainEvent::Settled(Ok(true)) => if domain.traced {
            (domain, DomainAction::Finish(Ok(())))
        } else {
            (domain, DomainAction::SeizeTasks)
        },
        DomainEvent::Seized(Err(fault)) => (domain, DomainAction::GiveUp(fault)),
        DomainEvent::Seized(Ok(_)) => (DomainView { traced: true, ..domain }, DomainAction::Finish(Ok(()))),
        DomainEvent::Clock { is_late } => if is_late {
            (domain, DomainAction::GiveUp(DomainFault::TimedOut))
        } else {
            (domain, DomainAction::Wait)
        },
        _ => (domain, DomainAction::LookAtTasks),
    }
}

/// What follows in a release once no task is held any more.
pub open spec fn continue_action(domain: DomainView) -> DomainAction {
    if domain.terminating {
        DomainAction::Finish(Ok(()))
    } else {
        DomainAction::ContinueMembers
    }
}

/// A session without one of its pauses.
pub open spec fn unpaused(domain: DomainView, throttle: bool) -> DomainView {
    if throttle {
        DomainView { throttle: false, ..domain }
    } else {
        DomainView { manual: false, ..domain }
    }
}

/// One step of a release. Only the last pause that ends lets the session go on,
/// and only where it is not torn down.
pub open spec fn release_step(domain: DomainView, throttle: bool, event: DomainEvent) -> (DomainView, DomainAction) {
    match event {
        DomainEvent::Begin => {
            let next = unpaused(domain, throttle);
            if next.manual || next.throttle {
                (next, DomainAction::Finish(Ok(())))
            } else if next.traced {
                (DomainView { traced: false, ..next }, DomainAction::ReleaseTasks)
            } else {
                (next, continue_action(next))
            }
        },
        DomainEvent::Released(Err(fault)) => (domain, DomainAction::Finish(Err(fault))),
        DomainEvent::Released(Ok(_)) => (domain, continue_action(domain)),
        DomainEvent::Sent(Err(fault)) => (domain, DomainAction::Finish(Err(fault))),
        DomainEvent::Sent(Ok(_)) => if domain.manual || domain.throttle || domain.terminating {
            (domain, DomainAction::Finish(Ok(())))
        } else {
            (with_gate(domain, false), DomainAction::Finish(Ok(())))
        },
        _ => (domain, continue_action(domain)),
    }
}

impl ExecutionDomain {
    /// Opens a session while its anchor still exists. `opened` is the error of
    /// opening a handle on the anchor.
    pub fn open(descriptor: ExecutionDomainDescriptor, opened: Option<i32>, look: AnchorLook) -> (result: Result<
        ExecutionDomain,
        DomainFault,
    >)
        ensures
            if descriptor.session_id <= 0 {
                result == Err::<ExecutionDomain, DomainFault>(DomainFault::InvalidStat)
            } else {
                match opened {
                    Some(errno) => result == Err::<ExecutionDomain, DomainFault>(DomainFault::Failed(errno)),
                    None => match anchor_fault(descriptor, look) {
                        Some(fault) => result == Err::<ExecutionDomain, DomainFault>(fault),
                        None => result matches Ok(domain) && domain@ == fresh(descriptor),
                    },
                }
            },
    {
        if descriptor.session_id <= 0 {
            return Err(DomainFault::InvalidStat);
        }
        match opened {
            Some(errno) => {
                return Err(DomainFault::Failed(errno));
            },
            None => {},
        }
        match validate_anchor(descriptor, look) {
            Err(fault) => Err(fault),
            Ok(_) => Ok(
                ExecutionDomain {
                    descriptor,
                    retired: false,
                    terminating: false,
                    manual: false,
                    throttle: false,
                    traced: false,
                    gate: NotificationGate::default(),
                },
            ),
        }
    }

    /// The descriptor of the session that a process leads.
    pub fn captured(anchor: i32, stat: StatOutcome) -> (result: Result<ExecutionDomainDescriptor, DomainFault>)
        ensures
            result == match stat {
                StatOutcome::Read(known) => if known.session != anchor {
                    Err::<ExecutionDomainDescriptor, DomainFault>(DomainFault::NotOwnSession)
                } else {
                    Ok::<ExecutionDomainDescriptor, DomainFault>(
                        ExecutionDomainDescriptor { session_id: anchor, anchor_start_time: known.start },
                    )
                },
                StatOutcome::Gone => Err::<ExecutionDomainDescriptor, DomainFault>(DomainFault::TaskGone),
                StatOutcome::Failed(fault) => Err::<ExecutionDomainDescriptor, DomainFault>(fault),
            },
    {
        match stat {
            StatOutcome::Read(known) => {
                if known.session != anchor {
                    Err(DomainFault::NotOwnSession)
                } else {
                    Ok(ExecutionDomainDescriptor { session_id: anchor, anchor_start_time: known.start })
                }
            },
            StatOutcome::Gone => Err(DomainFault::TaskGone),
            StatOutcome::Failed(fault) => Err(fault),
        }
    }

    /// Opens the session that a process leads, for its owner.
    pub fn capture(anchor: i32, killable_recv: bool, stat: StatOutcome, opened: Option<i32>, look: AnchorLook) -> (result:
        Result<ExecutionDomain, DomainFault>)
        ensures
            match stat {
                StatOutcome::Gone => result == Err::<ExecutionDomain, DomainFault>(DomainFault::TaskGone),
                StatOutcome::Failed(fault) => result == Err::<ExecutionDomain, DomainFault>(fault),
                StatOutcome::Read(known) => {
                    let descriptor = ExecutionDomainDescriptor { session_id: anchor, anchor_start_time: known.start };
                    if known.session != anchor {
                        result == Err::<ExecutionDomain, DomainFault>(DomainFault::NotOwnSession)
                    } else if anchor <= 0 {
                        result == Err::<ExecutionDomain, DomainFault>(DomainFault::InvalidStat)
                    } else {
                        match opened {
                            Some(errno) => result == Err::<ExecutionDomain, DomainFault>(DomainFault::Failed(errno)),
                            None => match anchor_fault(descriptor, look) {
                                Some(fault) => result == Err::<ExecutionDomain, DomainFault>(fault),
                                None => {
                                    &&& result matches Ok(domain)
                                    &&& domain@ == (DomainView {
                                        gate: gate::GateView { killable_recv, ..fresh(descriptor).gate },
                                        ..fresh(descriptor)
                                    })
                                },
                            },
                        }
                    }
                },
            },
    {
        match ExecutionDomain::captured(anchor, stat) {
            Err(fault) => Err(fault),
            Ok(descriptor) => match ExecutionDomain::open(descriptor, opened, look) {
                Err(fault) => Err(fault),
                Ok(domain) => {
                    let mut owned = domain;
                    owned.gate.set_killable(killable_recv);
                    Ok(owned)
                },
            },
        }
    }

    /// The identity of the session.
    pub fn descriptor(&self) -> (descriptor: ExecutionDomainDescriptor)
        ensures
            descriptor == self@.descriptor,
    {
        self.descriptor
    }

    /// Whether the session is being torn down.
    pub fn is_terminating(&self) -> (result: bool)
        ensures
            result == self@.terminating,
    {
        self.terminating
    }

    /// Whether nothing of the session is left: then it has no members.
    pub fn is_retired(&self) -> (result: bool)
        ensures
            result == self@.retired,
    {
        self.retired
    }

    /// How many notifications of the session run.
    pub fn active(&self) -> (count: usize)
        ensures
            count == self@.gate.active,
    {
        self.gate.active()
    }

    /// The identities of the notifications that the session holds back.
    pub fn held_ids(&self) -> (ids: Vec<u64>)
        ensures
            ids@ == Seq::new(self@.gate.held.len(), |i: int| self@.gate.held[i].id),
    {
        self.gate.held_ids()
    }

    /// Whether only a kill ends the wait of a notification that is held.
    pub fn is_killable(&self) -> (killable: bool)
        ensures
            killable == self@.gate.killable_recv,
    {
        self.gate.is_killable()
    }

    /// A notification comes to the notification gate of the session.
    pub fn enter(&mut self, notif: crate::seccomp::SeccompNotif, live: &Vec<u64>) -> (admission: gate::Admission)
        requires
            domain_wf(old(self)@),
            old(self)@.gate.active < usize::MAX,
        ensures
            domain_wf(final(self)@),
            admission == gate::admission_of(old(self)@.gate, live@),
            final(self)@ == (DomainView {
                gate: gate::after_enter(old(self)@.gate, notif, live@),
                ..old(self)@
            }),
    {
        self.gate.enter(notif, live)
    }

    /// A notification that ran leaves.
    pub fn leave(&mut self)
        requires
            domain_wf(old(self)@),
            old(self)@.gate.active > 0,
        ensures
            domain_wf(final(self)@),
            final(self)@ == (DomainView {
                gate: gate::GateView { active: old(self)@.gate.active - 1, ..old(self)@.gate },
                ..old(self)@
            }),
    {
        self.gate.leave();
    }

    /// Takes the notification that may run next.
    pub fn pop(&mut self) -> (notif: Option<crate::seccomp::SeccompNotif>)
        ensures
            notif == gate::next_held(old(self)@.gate),
            final(self)@ == (DomainView { gate: gate::after_pop(old(self)@.gate), ..old(self)@ }),
    {
        self.gate.pop()
    }

    /// Whether a live notification of a task is held.
    pub fn holds(&self, tid: i32, live: &Vec<u64>) -> (result: bool)
        ensures
            result == gate::holds_task(self@.gate, tid, live@),
    {
        self.gate.holds(tid, live)
    }

    /// Makes the session ready for a signal: a kill closes the notification gate for good.
    pub fn signal(&mut self, signal: i32)
        ensures
            final(self)@ == before_signal(old(self)@, signal),
    {
        if signal == SIGKILL {
            self.terminating = true;
            self.gate.close();
        }
    }

    /// What follows once each member was sent a signal.
    pub fn signalled(&mut self, signal: i32, sent: Result<(), DomainFault>) -> (action: DomainAction)
        ensures
            (final(self)@, action) == after_sent(old(self)@, signal, sent),
    {
        match sent {
            Err(fault) => DomainAction::Finish(Err(fault)),
            Ok(done) => {
                if signal == SIGKILL && self.traced {
                    self.traced = false;
                    DomainAction::ReleaseTasks
                } else {
                    DomainAction::Finish(Ok(done))
                }
            },
        }
    }

    /// One step of a teardown: the members are killed until none is left.
    pub fn terminate_and_wait(&mut self, event: DomainEvent) -> (action: DomainAction)
        ensures
            (final(self)@, action) == teardown_step(old(self)@, event),
    {
        match event {
            DomainEvent::Begin => {
                if self.retired {
                    return DomainAction::Finish(Ok(()));
                }
                self.terminating = true;
                self.gate.close();
                DomainAction::ListMembers
            },
            DomainEvent::Listed(Err(fault)) => DomainAction::Finish(Err(fault)),
            DomainEvent::Listed(Ok(count)) => {
                if count == 0 && self.gate.idle() {
                    self.retired = true;
                    DomainAction::Finish(Ok(()))
                } else {
                    DomainAction::KillMembers
                }
            },
            DomainEvent::Sent(Err(fault)) => DomainAction::Finish(Err(fault)),
            DomainEvent::Sent(Ok(_)) => {
                if self.traced {
                    self.traced = false;
                    DomainAction::ReleaseTasks
                } else {
                    DomainAction::ReadClock
                }
            },
            DomainEvent::Released(Err(fault)) => DomainAction::Finish(Err(fault)),
            DomainEvent::Released(Ok(_)) => DomainAction::ReadClock,
            DomainEvent::Clock { is_late } => {
                if is_late {
                    DomainAction::Finish(Err(DomainFault::TimedOut))
                } else {
                    DomainAction::Wait
                }
            },
            _ => DomainAction::ListMembers,
        }
    }

    fn next_stop(&self) -> (action: DomainAction)
        ensures
            action == stop_action(self@),
    {
        if !self.gate.idle() {
            DomainAction::ReadClock
        } else if self.gate.is_killable() {
            DomainAction::StopTasks
        } else {
            DomainAction::StopMembers
        }
    }

    /// One step of a pause: once no handler runs, the tasks are stopped and held.
    pub fn pause(&mut self, throttle: bool, event: DomainEvent) -> (action: DomainAction)
        ensures
            (final(self)@, action) == pause_step(old(self)@, throttle, event),
    {
        match event {
            DomainEvent::Begin => {
                if throttle {
                    self.throttle = true;
                } else {
                    self.manual = true;
                }
                self.gate.close();
                self.next_stop()
            },
            DomainEvent::Woke => self.next_stop(),
            DomainEvent::Stopped(Err(fault)) => DomainAction::GiveUp(fault),
            DomainEvent::Stopped(Ok(_)) => DomainAction::LookAtTasks,
            DomainEvent::Settled(Err(fault)) => DomainAction::GiveUp(fault),
            DomainEvent::Settled(Ok(is_still)) => {
                if !is_still {
                    DomainAction::ReadClock
                } else if self.traced {
                    DomainAction::Finish(Ok(()))
                } else {
                    DomainAction::SeizeTasks
                }
            },
            DomainEvent::Seized(Err(fault)) => DomainAction::GiveUp(fault),
            DomainEvent::Seized(Ok(_)) => {
                self.traced = true;
                DomainAction::Finish(Ok(()))
            },
            DomainEvent::Clock { is_late } => {
                if is_late {
                    DomainAction::GiveUp(DomainFault::TimedOut)
                } else {
                    DomainAction::Wait
                }
            },
            _ => DomainAction::LookAtTasks,
        }
    }

    fn go_on(&self) -> (action: DomainAction)
        ensures
            action == continue_action(self@),
    {
        if self.terminating {
            DomainAction::Finish(Ok(()))
        } else {
            DomainAction::ContinueMembers
        }
    }

    /// One step of the release of a pause.
    pub fn release_pause(&mut self, throttle: bool, event: DomainEvent) -> (action: DomainAction)
        ensures
            (final(self)@, action) == release_step(old(self)@, throttle, event),
    {
        match event {
            DomainEvent::Begin => {
                if throttle {
                    self.throttle = false;
                } else {
                    self.manual = false;
                }
                if self.manual || self.throttle {
                    DomainAction::Finish(Ok(()))
                } else if self.traced {
                    self.traced = false;
                    DomainAction::ReleaseTasks
                } else {
                    self.go_on()
                }
            },
            DomainEvent::Released(Err(fault)) => DomainAction::Finish(Err(fault)),
            DomainEvent::Released(Ok(_)) => self.go_on(),
            DomainEvent::Sent(Err(fault)) => DomainAction::Finish(Err(fault)),
            DomainEvent::Sent(Ok(_)) => {
                if !self.manual && !self.throttle && !self.terminating {
                    self.gate.open();
                }
                DomainAction::Finish(Ok(()))
            },
            _ => self.go_on(),
        }
    }
}

/// While a session is paused, for whichever reason, its gate stays closed: no
/// step of a teardown, of another pause or of its release opens it.
pub proof fn law_paused_domains_stay_closed(domain: DomainView, throttle: bool, signal: i32, event: DomainEvent)
    requires
        domain_wf(domain),
    ensures
        domain_wf(before_signal(domain, signal)),
        domain_wf(teardown_step(domain, event).0),
        domain_wf(pause_step(domain, throttle, event).0),
        domain_wf(release_step(domain, throttle, event).0),
{
}

/// A teardown succeeds only where the session was retired before, or no member
/// was left and no handler ran; from there on it stays retired.
pub proof fn law_teardown_leaves_no_member(domain: DomainView, event: DomainEvent)
    requires
        teardown_step(domain, event).1 == DomainAction::Finish(Ok(())),
    ensures
        domain.retired || (event == DomainEvent::Listed(Ok::<usize, DomainFault>(0)) && domain.gate.active == 0),
        teardown_step(domain, event).0.retired,
        teardown_step(teardown_step(domain, event).0, DomainEvent::Begin).1 == DomainAction::Finish(Ok(())),
{
}

/// A session that is torn down never runs again by the end of a pause: its
/// members are not continued, and its notification gate stays closed.
pub proof fn law_terminating_domains_are_not_continued(domain: DomainView, throttle: bool, event: DomainEvent)
    requires
        domain.terminating,
    ensures
        release_step(domain, throttle, event).1 != DomainAction::ContinueMembers,
        release_step(domain, throttle, event).0.terminating,
        domain.gate.closed ==> release_step(domain, throttle, event).0.gate.closed,
        domain.gate.closed ==> pause_step(domain, throttle, event).0.gate.closed,
        domain.gate.closed ==> teardown_step(domain, event).0.gate.closed,
        teardown_step(domain, event).0.terminating,
        pause_step(domain, throttle, event).0.terminating,
{
}

/// One of two pauses that ends does not end the other: the session stays paused,
/// its tasks stay held, and its gate stays closed.
pub proof fn law_pauses_are_independent(domain: DomainView, throttle: bool)
    requires
        domain_wf(domain),
        domain.manual && domain.throttle,
    ensures
        release_step(domain, throttle, DomainEvent::Begin).1 == DomainAction::Finish(Ok(())),
        release_step(domain, throttle, DomainEvent::Begin).0 == unpaused(domain, throttle),
        release_step(domain, throttle, DomainEvent::Begin).0.gate.closed,
        release_step(domain, throttle, DomainEvent::Begin).0.traced == domain.traced,
{
}

/// A domain that is killed closes its gate and is marked as torn down; no other signal
/// changes it. Once every member was sent a kill, tasks that were held are let go, so that
/// it reaches them; a signal that could not be sent is told.
pub proof fn law_kills_close_the_gate(domain: DomainView, signal: i32, fault: DomainFault)
    ensures
        before_signal(domain, 9).terminating,
        before_signal(domain, 9).gate.closed,
        before_signal(domain, 9).gate.held == domain.gate.held,
        before_signal(domain, 9).manual == domain.manual && before_signal(domain, 9).throttle == domain.throttle,
        signal != 9 ==> before_signal(domain, signal) == domain,
        after_sent(domain, signal, Err(fault)) == (domain, DomainAction::Finish(Err(fault))),
        after_sent(domain, 9, Ok(())).1 == DomainAction::ReleaseTasks <==> domain.traced,
        !after_sent(domain, 9, Ok(())).0.traced,
        signal != 9 ==> after_sent(domain, signal, Ok(())) == (domain, DomainAction::Finish(Ok(()))),
{
}

/// A teardown kills what it lists and lists again until nothing is left: it takes the
/// domain out of use only where no member is left and no notification runs, lets held
/// tasks go so that the kill reaches them, and gives up when its time is over.
pub proof fn law_teardowns_kill_until_nothing_is_left(domain: DomainView, count: usize, fault: DomainFault)
    ensures
        !domain.retired ==> teardown_step(domain, DomainEvent::Begin).1 == DomainAction::ListMembers && teardown_step(
            domain,
            DomainEvent::Begin,
        ).0.terminating && teardown_step(domain, DomainEvent::Begin).0.gate.closed,
        count > 0 || domain.gate.active != 0 ==> teardown_step(domain, DomainEvent::Listed(Ok(count))) == (
            domain,
            DomainAction::KillMembers,
        ),
        domain.gate.active == 0 ==> teardown_step(domain, DomainEvent::Listed(Ok(0))).0.retired,
        domain.gate.active == 0 ==> teardown_step(domain, DomainEvent::Listed(Ok(0))).1 == DomainAction::Finish(Ok(())),
        teardown_step(domain, DomainEvent::Sent(Ok(()))).1 == if domain.traced {
            DomainAction::ReleaseTasks
        } else {
            DomainAction::ReadClock
        },
        !teardown_step(domain, DomainEvent::Sent(Ok(()))).0.traced,
        teardown_step(domain, DomainEvent::Released(Ok(()))) == (domain, DomainAction::ReadClock),
        teardown_step(domain, DomainEvent::Clock { is_late: true }) == (
            domain,
            DomainAction::Finish(Err(DomainFault::TimedOut)),
        ),
        teardown_step(domain, DomainEvent::Clock { is_late: false }) == (domain, DomainAction::Wait),
        teardown_step(domain, DomainEvent::Woke) == (domain, DomainAction::ListMembers),
        teardown_step(domain, DomainEvent::Listed(Err(fault))) == (domain, DomainAction::Finish(Err(fault))),
        teardown_step(domain, DomainEvent::Sent(Err(fault))) == (domain, DomainAction::Finish(Err(fault))),
        teardown_step(domain, DomainEvent::Released(Err(fault))) == (domain, DomainAction::Finish(Err(fault))),
{
}

/// A domain that pauses closes its gate and marks its reason before anything is stopped;
/// nothing is stopped while a notification runs; it succeeds only once no task runs and all
/// are held; and whatever fails, or comes too late, gives it up.
pub proof fn law_pauses_hold_every_task(domain: DomainView, throttle: bool, event: DomainEvent, fault: DomainFault)
    ensures
        ({
            let begun = pause_step(domain, throttle, DomainEvent::Begin);
            &&& begun.0.gate.closed
            &&& begun.0.throttle == (throttle || domain.throttle)
            &&& begun.0.manual == (!throttle || domain.manual)
            &&& begun.0.gate.held == domain.gate.held && begun.0.gate.active == domain.gate.active
            &&& begun.0.terminating == domain.terminating && begun.0.traced == domain.traced
            &&& begun.1 == if domain.gate.active != 0 {
                DomainAction::ReadClock
            } else if domain.gate.killable_recv {
                DomainAction::StopTasks
            } else {
                DomainAction::StopMembers
            }
            &&& pause_step(domain, throttle, DomainEvent::Woke) == (domain, begun.1)
        }),
        pause_step(domain, throttle, event).1 == DomainAction::Finish(Ok(())) ==> pause_step(domain, throttle, event).0.traced
            && (event == DomainEvent::Settled(Ok::<bool, DomainFault>(true)) || event matches DomainEvent::Seized(Ok(_))),
        !(pause_step(domain, throttle, event).1 matches DomainAction::Finish(Err(_))),
        pause_step(domain, throttle, DomainEvent::Stopped(Ok(()))) == (domain, DomainAction::LookAtTasks),
        pause_step(domain, throttle, DomainEvent::Settled(Ok(false))) == (domain, DomainAction::ReadClock),
        !domain.traced ==> pause_step(domain, throttle, DomainEvent::Settled(Ok(true))) == (
            domain,
            DomainAction::SeizeTasks,
        ),
        pause_step(domain, throttle, DomainEvent::Clock { is_late: true }) == (
            domain,
            DomainAction::GiveUp(DomainFault::TimedOut),
        ),
        pause_step(domain, throttle, DomainEvent::Clock { is_late: false }) == (domain, DomainAction::Wait),
        pause_step(domain, throttle, DomainEvent::Stopped(Err(fault))) == (domain, DomainAction::GiveUp(fault)),
        pause_step(domain, throttle, DomainEvent::Settled(Err(fault))) == (domain, DomainAction::GiveUp(fault)),
        pause_step(domain, throttle, DomainEvent::Seized(Err(fault))) == (domain, DomainAction::GiveUp(fault)),
{
}

/// Releasing a pause undoes it: of a domain with no other pause that is not torn down, the
/// tasks that were held are let go, every member is continued, and then its gate opens, so
/// that the domain is as it was before the pause. A member that cannot be continued keeps
/// its gate closed.
pub proof fn law_releases_undo_pauses(domain: DomainView, throttle: bool, fault: DomainFault)
    requires
        !domain.manual,
        !domain.throttle,
        !domain.terminating,
        !domain.traced,
        !domain.gate.closed,
    ensures
        ({
            let paused = DomainView { traced: true, ..pause_step(domain, throttle, DomainEvent::Begin).0 };
            let begun = release_step(paused, throttle, DomainEvent::Begin);
            let released = release_step(begun.0, throttle, DomainEvent::Released(Ok(())));
            let continued = release_step(released.0, throttle, DomainEvent::Sent(Ok(())));
            &&& begun.1 == DomainAction::ReleaseTasks && begun.0.gate.closed
            &&& released.1 == DomainAction::ContinueMembers && released.0.gate.closed
            &&& continued.1 == DomainAction::Finish(Ok(()))
            &&& continued.0 == domain
            &&& release_step(begun.0, throttle, DomainEvent::Released(Err(fault))) == (
                begun.0,
                DomainAction::Finish(Err(fault)),
            )
            &&& release_step(released.0, throttle, DomainEvent::Sent(Err(fault))) == (
                released.0,
                DomainAction::Finish(Err(fault)),
            )
        }),
{
    let paused = DomainView { traced: true, ..pause_step(domain, throttle, DomainEvent::Begin).0 };
    let begun = release_step(paused, throttle, DomainEvent::Begin);
    let released = release_step(begun.0, throttle, DomainEvent::Released(Ok(())));
    let continued = release_step(released.0, throttle, DomainEvent::Sent(Ok(())));
    assert(continued.0.gate =~= domain.gate);
}

/// A gate opens only where a member was continued and neither a pause nor a teardown is
/// on: whatever is asked of a domain meanwhile, a closed gate stays closed.
pub proof fn law_gates_open_only_when_released(domain: DomainView, throttle: bool, event: DomainEvent)
    requires
        domain.gate.closed,
    ensures
        !release_step(domain, throttle, event).0.gate.closed ==> !domain.manual && !domain.throttle && !domain.terminating
            && event matches DomainEvent::Sent(Ok(_)),
        pause_step(domain, throttle, event).0.gate.closed,
        teardown_step(domain, event).0.gate.closed,
{
}

/// The anchor of a session is the process that was there when the session was captured:
/// one in another session or with another start is another, one whose handle no longer
/// answers has ended, and one that cannot be read is not to be had.
pub proof fn law_anchors_keep_their_identity(descriptor: ExecutionDomainDescriptor, look: AnchorLook)
    ensures
        anchor_fault(descriptor, look) is None <==> look.answers && (look.stat matches StatOutcome::Read(stat)
            && stat.session == descriptor.session_id && stat.start == descriptor.anchor_start_time),
        anchor_fault(descriptor, look) == Some(DomainFault::AnchorChanged) <==> (look.stat matches StatOutcome::Read(stat)
            && (stat.session != descriptor.session_id || stat.start != descriptor.anchor_start_time)),
        anchor_fault(descriptor, look) == Some(DomainFault::AnchorUnavailable) <==> !(look.stat is Read),
{
}

/// A process that is gone is one that is not there, or that no longer runs.
pub proof fn law_gone_is_not_there(errno: i32)
    ensures
        is_gone(errno) <==> errno == 2 || errno == 3,
{
}

} // verus!
