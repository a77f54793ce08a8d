//! The notification gate in front of the handlers: open, it lets notifications
//! run; closed, it holds them back in their order.

use crate::seccomp::SeccompNotif;
use vstd::prelude::*;

verus! {

/// The most notifications that are held.
pub const MAX_HELD_NOTIFICATIONS: usize = 8192;

/// What becomes of a notification at the notification gate.
#[derive(Clone, Copy, Debug, PartialEq, Eq, Structural)]
pub enum Admission {
    /// It runs, and the notification gate counts it until it leaves.
    Run,
    Held,
    /// There is no room to hold it.
    Full,
}

/// The notification gate in front of the handlers.
#[derive(Debug)]
pub struct NotificationGate {
    closed: bool,
    active: usize,
    held: Vec<SeccompNotif>,
    killable_recv: bool,
}

/// What a gate knows.
#[verifier::ext_equal]
pub struct GateView {
    pub closed: bool,
    /// How many notifications run.
    pub active: int,
    /// The notifications that are held, the first first.
    pub held: Seq<SeccompNotif>,
    /// Whether a held notification can only be left by a kill.
    pub killable_recv: bool,
}

impl View for NotificationGate {
    type V = GateView;

    closed spec fn view(&self) -> GateView {
        GateView {
            closed: self.closed,
            active: self.active as int,
            held: self.held@,
            killable_recv: self.killable_recv,
        }
    }
}

/// Never are more notifications held than there is room for.
pub open spec fn gate_wf(gate: GateView) -> bool {
    gate.held.len() <= MAX_HELD_NOTIFICATIONS && gate.active >= 0
}

/// The notifications among some that are live.
pub open spec fn live_ones(held: Seq<SeccompNotif>, live: Seq<u64>) -> Seq<SeccompNotif>
    decreases held.len(),
{
    if held.len() == 0 {
        Seq::empty()
    } else if live.contains(held.last().id) {
        live_ones(held.drop_last(), live).push(held.last())
    } else {
        live_ones(held.drop_last(), live)
    }
}

/// What is held when another notification comes: where there is no room, those
/// that are not live any more make some.
pub open spec fn made_room(held: Seq<SeccompNotif>, live: Seq<u64>) -> Seq<SeccompNotif> {
    if held.len() == MAX_HELD_NOTIFICATIONS {
        live_ones(held, live)
    } else {
        held
    }
}

/// What becomes of a notification.
pub open spec fn admission_of(gate: GateView, live: Seq<u64>) -> Admission {
    if !gate.closed {
        Admission::Run
    } else if made_room(gate.held, live).len() == MAX_HELD_NOTIFICATIONS {
        Admission::Full
    } else {
        Admission::Held
    }
}

/// The notification gate after a notification came.
pub open spec fn after_enter(gate: GateView, notif: SeccompNotif, live: Seq<u64>) -> GateView {
    match admission_of(gate, live) {
        Admission::Run => GateView { active: gate.active + 1, ..gate },
        Admission::Held => GateView { held: made_room(gate.held, live).push(notif), ..gate },
        Admission::Full => GateView { held: made_room(gate.held, live), ..gate },
    }
}

/// The notification that may run next.
pub open spec fn next_held(gate: GateView) -> Option<SeccompNotif> {
    if gate.closed || gate.held.len() == 0 {
        None
    } else {
        Some(gate.held[0])
    }
}

/// The notification gate after the next notification was taken.
pub open spec fn after_pop(gate: GateView) -> GateView {
    if next_held(gate) is Some {
        GateView { held: gate.held.skip(1), ..gate }
    } else {
        gate
    }
}

/// Whether a gate holds a live notification of a task.
pub open spec fn holds_task(gate: GateView, tid: i32, live: Seq<u64>) -> bool {
    gate.killable_recv && gate.closed && exists|i: int|
        0 <= i < gate.held.len() && (#[trigger] gate.held[i]).pid == tid as u32 && live.contains(gate.held[i].id)
}

proof fn lemma_live_ones_fit(held: Seq<SeccompNotif>, live: Seq<u64>)
    ensures
        live_ones(held, live).len() <= held.len(),
    decreases held.len(),
{
    if held.len() > 0 {
        lemma_live_ones_fit(held.drop_last(), live);
    }
}

fn has_id(live: &Vec<u64>, id: u64) -> (result: bool)
    ensures
        result == live@.contains(id),
{
    let mut i: usize = 0;
    while i < live.len()
        invariant
            i <= live@.len(),
            forall|j: int| 0 <= j < i ==> live@[j] != id,
        decreases live@.len() - i,
    {
        if live[i] == id {
            return true;
        }
        i = i + 1;
    }
    false
}

impl Default for NotificationGate {
    fn default() -> (gate: NotificationGate)
        ensures
            gate@ == (GateView { closed: false, active: 0, held: Seq::empty(), killable_recv: false }),
    {
        NotificationGate { closed: false, active: 0, held: Vec::new(), killable_recv: false }
    }
}

impl NotificationGate {
    /// Tells the notification gate whether a held notification can only be left by a kill.
    pub fn set_killable(&mut self, killable: bool)
        ensures
            final(self)@ == (GateView { killable_recv: killable, ..old(self)@ }),
    {
        self.killable_recv = killable;
    }

    /// Whether a held notification can only be left by a kill.
    pub fn is_killable(&self) -> (killable: bool)
        ensures
            killable == self@.killable_recv,
    {
        self.killable_recv
    }

    /// The identities of the notifications that are held.
    pub fn held_ids(&self) -> (ids: Vec<u64>)
        ensures
            ids@ == Seq::new(self@.held.len(), |i: int| self@.held[i].id),
    {
        let mut ids: Vec<u64> = Vec::new();
        let mut i: usize = 0;
        while i < self.held.len()
            invariant
                i <= self.held@.len(),
                ids@.len() == i,
                forall|j: int| 0 <= j < i ==> #[trigger] ids@[j] == self.held@[j].id,
            decreases self.held@.len() - i,
        {
            ids.push(self.held[i].id);
            i = i + 1;
        }
        proof {
            assert(ids@ =~= Seq::new(self@.held.len(), |i: int| self@.held[i].id));
        }
        ids
    }

    /// Whether a live notification of a task is held. Without the certainty that
    /// only a kill ends its wait, none counts.
    pub fn holds(&self, tid: i32, live: &Vec<u64>) -> (result: bool)
        ensures
            result == holds_task(self@, tid, live@),
    {
        if !self.killable_recv || !self.closed {
            return false;
        }
        let mut i: usize = 0;
        while i < self.held.len()
            invariant
                i <= self.held@.len(),
                self.killable_recv && self.closed,
                forall|j: int|
                    0 <= j < i ==> !((#[trigger] self.held@[j]).pid == tid as u32 && live@.contains(self.held@[j].id)),
            decreases self.held@.len() - i,
        {
            if self.held[i].pid == tid as u32 && has_id(live, self.held[i].id) {
                proof {
                    assert(self@.held[i as int].pid == tid as u32);
                }
                return true;
            }
            i = i + 1;
        }
        false
    }

    /// Takes a notification to the notification gate. `live` are the identities of those that
    /// are still waited on.
    pub fn enter(&mut self, notif: SeccompNotif, live: &Vec<u64>) -> (admission: Admission)
        requires
            gate_wf(old(self)@),
            old(self)@.active < usize::MAX,
        ensures
            gate_wf(final(self)@),
            admission == admission_of(old(self)@, live@),
            final(self)@ == after_enter(old(self)@, notif, live@),
    {
        let ghost before = self@;
        if !self.closed {
            self.active = self.active + 1;
            return Admission::Run;
        }
        if self.held.len() == MAX_HELD_NOTIFICATIONS {
            let mut kept: Vec<SeccompNotif> = Vec::new();
            let mut i: usize = 0;
            proof {
                assert(before.held.take(0) =~= Seq::<SeccompNotif>::empty());
            }
            while i < self.held.len()
                invariant
                    i <= self.held@.len(),
                    self.held@ == before.held,
                    kept@ == live_ones(before.held.take(i as int), live@),
                decreases self.held@.len() - i,
            {
                proof {
                    let more = before.held.take(i as int + 1);
                    assert(more.drop_last() =~= before.held.take(i as int));
                    assert(more.last() == before.held[i as int]);
                }
                if has_id(live, self.held[i].id) {
                    kept.push(self.held[i]);
                }
                i = i + 1;
            }
            proof {
                assert(before.held.take(i as int) =~= before.held);
                lemma_live_ones_fit(before.held, live@);
            }
            self.held = kept;
        }
        proof {
            assert(self.held@ == made_room(before.held, live@));
        }
        if self.held.len() == MAX_HELD_NOTIFICATIONS {
            return Admission::Full;
        }
        self.held.push(notif);
        Admission::Held
    }

    /// A notification that ran leaves.
    pub fn leave(&mut self)
        requires
            old(self)@.active > 0,
        ensures
            final(self)@ == (GateView { active: old(self)@.active - 1, ..old(self)@ }),
    {
        self.active = self.active - 1;
    }

    /// Closes the notification gate.
    pub fn close(&mut self)
        ensures
            final(self)@ == (GateView { closed: true, ..old(self)@ }),
    {
        self.closed = true;
    }

    /// Opens the notification gate.
    pub fn open(&mut self)
        ensures
            final(self)@ == (GateView { closed: false, ..old(self)@ }),
    {
        self.closed = false;
    }

    /// How many notifications run.
    pub fn active(&self) -> (count: usize)
        ensures
            count == self@.active,
    {
        self.active
    }

    /// Whether no notification runs.
    pub fn idle(&self) -> (idle: bool)
        ensures
            idle == (self@.active == 0),
    {
        self.active == 0
    }

    /// Takes the notification that may run next.
    pub fn pop(&mut self) -> (notif: Option<SeccompNotif>)
        ensures
            notif == next_held(old(self)@),
            final(self)@ == after_pop(old(self)@),
    {
        let ghost before = self@;
        if self.closed || self.held.len() == 0 {
            return None;
        }
        let first = self.held.remove(0);
        proof {
            assert(self.held@ =~= before.held.skip(1));
        }
        Some(first)
    }
}

/// The notification gate after so many notifications were taken.
pub open spec fn after_pops(gate: GateView, count: nat) -> GateView
    decreases count,
{
    if count == 0 {
        gate
    } else {
        after_pop(after_pops(gate, (count - 1) as nat))
    }
}

proof fn lemma_pops_skip(gate: GateView, count: nat)
    requires
        !gate.closed,
        count <= gate.held.len(),
    ensures
        after_pops(gate, count) == (GateView { held: gate.held.skip(count as int), ..gate }),
    decreases count,
{
    if count > 0 {
        lemma_pops_skip(gate, (count - 1) as nat);
        assert(gate.held.skip(count - 1).skip(1) =~= gate.held.skip(count as int));
    } else {
        assert(gate.held.skip(0) =~= gate.held);
    }
}

/// An open gate hands out what was held in the order in which it came.
pub proof fn law_held_notifications_leave_in_order(gate: GateView, count: nat)
    requires
        !gate.closed,
        count < gate.held.len(),
    ensures
        next_held(after_pops(gate, count)) == Some(gate.held[count as int]),
{
    lemma_pops_skip(gate, count);
}

/// A closed gate lets nothing run: neither what comes nor what is held.
pub proof fn law_closed_gates_run_nothing(gate: GateView, notif: SeccompNotif, live: Seq<u64>)
    requires
        gate.closed,
    ensures
        admission_of(gate, live) != Admission::Run,
        after_enter(gate, notif, live).active == gate.active,
        next_held(gate) is None,
        after_pop(gate) == gate,
{
}

/// What is held is bounded, whatever comes; and a notification that is held is
/// the last in the order.
pub proof fn law_held_notifications_are_bounded(gate: GateView, notif: SeccompNotif, live: Seq<u64>)
    requires
        gate_wf(gate),
    ensures
        gate_wf(after_enter(gate, notif, live)),
        admission_of(gate, live) == Admission::Held ==> after_enter(gate, notif, live).held.last() == notif,
{
    lemma_live_ones_fit(gate.held, live);
}

/// An open gate lets a notification run and counts it; a closed one puts it behind those
/// that it holds, and turns it away only where it holds as many as it can and every one of
/// them is still waited for.
pub proof fn law_gates_run_or_hold(gate: GateView, notif: SeccompNotif, live: Seq<u64>)
    requires
        gate_wf(gate),
    ensures
        ({
            let waited = gate.held.filter(|held: SeccompNotif| live.contains(held.id));
            let kept = if gate.held.len() == 8192 {
                waited
            } else {
                gate.held
            };
            &&& !gate.closed ==> admission_of(gate, live) == Admission::Run && after_enter(gate, notif, live)
                == (GateView { active: gate.active + 1, ..gate })
            &&& gate.closed && kept.len() < 8192 ==> admission_of(gate, live) == Admission::Held && after_enter(
                gate,
                notif,
                live,
            ) == (GateView { held: kept.push(notif), ..gate })
            &&& gate.closed && kept.len() == 8192 ==> admission_of(gate, live) == Admission::Full && after_enter(
                gate,
                notif,
                live,
            ).held == kept
        }),
{
    lemma_live_ones(gate.held, live);
    lemma_live_ones_are_fewer(gate.held, live);
}

proof fn lemma_live_ones(held: Seq<SeccompNotif>, live: Seq<u64>)
    ensures
        live_ones(held, live) == held.filter(|one: SeccompNotif| live.contains(one.id)),
    decreases held.len(),
{
    reveal(Seq::filter);
    if held.len() > 0 {
        lemma_live_ones(held.drop_last(), live);
    }
}

proof fn lemma_live_ones_are_fewer(held: Seq<SeccompNotif>, live: Seq<u64>)
    ensures
        live_ones(held, live).len() <= held.len(),
    decreases held.len(),
{
    if held.len() > 0 {
        lemma_live_ones_are_fewer(held.drop_last(), live);
    }
}

/// A task counts as held by a closed gate whose notifications can only be left by a kill,
/// where one of its notifications is held and still waited for.
pub proof fn law_held_tasks_wait_at_the_gate(gate: GateView, tid: i32, live: Seq<u64>, i: int)
    requires
        0 <= i < gate.held.len(),
        gate.held[i].pid == tid as u32,
        live.contains(gate.held[i].id),
    ensures
        holds_task(gate, tid, live) == (gate.killable_recv && gate.closed),
{
}

} // verus!
