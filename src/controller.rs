use vstd::prelude::*;

use crate::device::{set_pwm, set_pwm_enable, DeviceWrite, FALLBACK_DUTY};

verus! {

/// Where the control loop stands.
#[derive(Clone, Copy, Debug, PartialEq, Eq, Structural)]
pub enum Phase {
    /// Manual control is engaged and the loop sets the duty cycle each tick.
    Polling,
    /// The device has been handed back; nothing more is written.
    Stopped,
}

/// What the surrounding program reports to the controller.
#[derive(Clone, Copy, Debug, PartialEq, Eq, Structural)]
pub enum Event {
    /// A tick whose control policy asked for this duty cycle.
    Tick(i32),
    /// The termination signal.
    Signal,
}

/// A write the surrounding program is to perform on the device.
#[derive(Clone, Copy, Debug, PartialEq, Eq, Structural)]
pub enum Action {
    /// Set the duty cycle.
    WriteDuty(i32),
    /// Put back the enable mode that the device had before startup.
    RestoreMode,
}

pub open spec fn step_spec(phase: Phase, event: Event) -> (Phase, Seq<Action>) {
    match phase {
        Phase::Polling => match event {
            Event::Tick(d) => (Phase::Polling, seq![Action::WriteDuty(d)]),
            Event::Signal => (Phase::Stopped, seq![Action::WriteDuty(FALLBACK_DUTY), Action::RestoreMode]),
        },
        Phase::Stopped => (Phase::Stopped, Seq::empty()),
    }
}

/// The actions of a whole run that starts in `phase` and sees `events`.
pub open spec fn run(phase: Phase, events: Seq<Event>) -> Seq<Action>
    decreases events.len(),
{
    if events.len() == 0 {
        Seq::empty()
    } else {
        let (next, acts) = step_spec(phase, events[0]);
        acts + run(next, events.drop_first())
    }
}

/// Advances the controller by one event and says what to write.
pub fn step(phase: Phase, event: Event) -> (r: (Phase, Vec<Action>))
    ensures
        r.0 == step_spec(phase, event).0,
        r.1@ == step_spec(phase, event).1,
{
    match phase {
        Phase::Polling => match event {
            Event::Tick(d) => (Phase::Polling, vec![Action::WriteDuty(d)]),
            Event::Signal => (Phase::Stopped, vec![Action::WriteDuty(FALLBACK_DUTY), Action::RestoreMode]),
        },
        Phase::Stopped => (Phase::Stopped, Vec::new()),
    }
}

/// The device write that carries out `action` on the PWM file at `pwm_path`,
/// whose enable mode was `original_mode` at startup.
pub fn write_for(pwm_path: &str, original_mode: &str, action: Action) -> (r: DeviceWrite)
    ensures
        action matches Action::WriteDuty(d) ==> r.path@ == pwm_path@ && r.contents@
            == crate::device::signed_decimal(d as int),
        action is RestoreMode ==> r.path@ == crate::device::enable_path(pwm_path@) && r.contents@
            == original_mode@,
{
    match action {
        Action::WriteDuty(d) => set_pwm(pwm_path, d),
        Action::RestoreMode => set_pwm_enable(pwm_path, original_mode),
    }
}

proof fn lemma_stopped_silent(events: Seq<Event>)
    ensures
        run(Phase::Stopped, events) == Seq::<Action>::empty(),
    decreases events.len(),
{
    if events.len() > 0 {
        lemma_stopped_silent(events.drop_first());
        assert(run(Phase::Stopped, events) =~= Seq::<Action>::empty());
    }
}

/// Whichever tick the termination signal arrives at, the run ends with the
/// fallback duty cycle and then the original enable mode, and the mode is
/// restored exactly once: before the signal only duty cycles are written.
pub proof fn lemma_shutdown_sequence(events: Seq<Event>, k: int)
    requires
        0 <= k < events.len(),
        events[k] == Event::Signal,
        forall|i: int| 0 <= i < k ==> events[i] != Event::Signal,
    ensures
        run(Phase::Polling, events) == run(Phase::Polling, events.take(k)) + seq![
            Action::WriteDuty(FALLBACK_DUTY),
            Action::RestoreMode,
        ],
        forall|i: int|
            0 <= i < run(Phase::Polling, events.take(k)).len() ==> #[trigger] run(
                Phase::Polling,
                events.take(k),
            )[i] is WriteDuty,
    decreases k,
{
    if k == 0 {
        lemma_stopped_silent(events.drop_first());
        assert(run(Phase::Polling, events.take(0)) =~= Seq::<Action>::empty());
        assert(run(Phase::Polling, events) =~= seq![Action::WriteDuty(FALLBACK_DUTY), Action::RestoreMode]);
    } else {
        let rest = events.drop_first();
        assert(rest[k - 1] == events[k]);
        assert forall|i: int| 0 <= i < k - 1 implies rest[i] != Event::Signal by {
            assert(rest[i] == events[i + 1]);
        }
        lemma_shutdown_sequence(rest, k - 1);
        assert(events[0] != Event::Signal);
        assert(events.take(k).drop_first() =~= rest.take(k - 1));
        let d = events[0]->Tick_0;
        assert(run(Phase::Polling, events.take(k)) =~= seq![Action::WriteDuty(d)] + run(Phase::Polling, rest.take(k - 1)));
        assert(run(Phase::Polling, events) =~= seq![Action::WriteDuty(d)] + run(Phase::Polling, rest));
    }
}

} // verus!
