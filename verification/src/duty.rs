//! The agent's round: register, then poll, execute and rest until it is stopped.

use vstd::prelude::*;

use crate::simulated::SimulatedSatellite;

verus! {

/// What the agent is to do next.
#[derive(Debug, Clone, Copy, PartialEq, Eq, Structural)]
pub enum Duty {
    /// Register with the console. A failure does not keep the agent from working.
    Register,
    /// See whether the agent is still running, to poll.
    LookBeforePoll,
    /// Poll for a workload.
    Poll,
    /// Execute the workload. A failure does not keep the agent from polling on.
    Execute,
    /// See whether the agent is still running, to rest.
    LookBeforeRest,
    /// Rest for the poll interval.
    Rest,
    /// Nothing: the agent was stopped.
    Quit,
}

/// What came of it.
#[derive(Debug, Clone, Copy, PartialEq, Eq, Structural)]
pub enum Outcome {
    /// It is done, or has failed.
    Done,
    /// Whether the agent is still running
    Running(bool),
    /// Whether a poll brought a workload; one that failed did not
    Workload(bool),
}

/// The outcome is one of this duty.
pub open spec fn belongs(duty: Duty, outcome: Outcome) -> bool {
    match duty {
        Duty::LookBeforePoll | Duty::LookBeforeRest => outcome is Running,
        Duty::Poll => outcome is Workload,
        Duty::Quit => false,
        _ => outcome is Done,
    }
}

/// The next duty.
pub open spec fn next_duty(duty: Duty, outcome: Outcome) -> Duty {
    match (duty, outcome) {
        (Duty::LookBeforePoll, Outcome::Running(true)) => Duty::Poll,
        (Duty::LookBeforePoll, _) => Duty::Quit,
        (Duty::Poll, Outcome::Workload(true)) => Duty::Execute,
        (Duty::Poll, _) => Duty::LookBeforeRest,
        (Duty::Execute, _) => Duty::LookBeforeRest,
        (Duty::LookBeforeRest, Outcome::Running(true)) => Duty::Rest,
        (Duty::LookBeforeRest, _) => Duty::LookBeforePoll,
        (Duty::Register, _) => Duty::LookBeforePoll,
        (Duty::Rest, _) => Duty::LookBeforePoll,
        (Duty::Quit, _) => Duty::Quit,
    }
}

impl Duty {
    /// The duty that follows.
    pub fn next(self, outcome: Outcome) -> (r: Duty)
        requires
            belongs(self, outcome),
        ensures
            r == next_duty(self, outcome),
    {
        match (self, outcome) {
            (Duty::LookBeforePoll, Outcome::Running(true)) => Duty::Poll,
            (Duty::LookBeforePoll, _) => Duty::Quit,
            (Duty::Poll, Outcome::Workload(true)) => Duty::Execute,
            (Duty::Poll, _) => Duty::LookBeforeRest,
            (Duty::Execute, _) => Duty::LookBeforeRest,
            (Duty::LookBeforeRest, Outcome::Running(true)) => Duty::Rest,
            (Duty::LookBeforeRest, _) => Duty::LookBeforePoll,
            (Duty::Register, _) => Duty::LookBeforePoll,
            (Duty::Rest, _) => Duty::LookBeforePoll,
            (Duty::Quit, _) => Duty::Quit,
        }
    }
}

impl SimulatedSatellite {
    /// Starts the agent. Its first duty is to register.
    pub fn start(&mut self) -> (r: Duty)
        ensures
            *final(self) == (SimulatedSatellite { running: true, ..*old(self) }),
            r == Duty::Register,
    {
        self.running = true;
        Duty::Register
    }

    /// Signals the agent to stop.
    pub fn stop(&mut self)
        ensures
            *final(self) == (SimulatedSatellite { running: false, ..*old(self) }),
    {
        self.running = false;
    }
}

/// The duty after a row of outcomes.
pub open spec fn duty_after(duty: Duty, outcomes: Seq<Outcome>) -> Duty
    decreases outcomes.len(),
{
    if outcomes.len() == 0 {
        duty
    } else {
        next_duty(duty_after(duty, outcomes.drop_last()), outcomes.last())
    }
}

/// Every outcome belongs to the duty at that point.
pub open spec fn all_belong(duty: Duty, outcomes: Seq<Outcome>) -> bool
    decreases outcomes.len(),
{
    outcomes.len() > 0 ==> {
        &&& all_belong(duty, outcomes.drop_last())
        &&& belongs(duty_after(duty, outcomes.drop_last()), outcomes.last())
    }
}

/// An agent registers first, and never again.
pub proof fn registration_comes_once_and_first(outcomes: Seq<Outcome>)
    ensures
        duty_after(Duty::Register, outcomes) == Duty::Register <==> outcomes.len() == 0,
    decreases outcomes.len(),
{
    if outcomes.len() > 0 {
        registration_comes_once_and_first(outcomes.drop_last());
    }
}

/// How many workloads polls have brought.
pub open spec fn workloads_polled(duty: Duty, outcomes: Seq<Outcome>) -> nat
    decreases outcomes.len(),
{
    if outcomes.len() == 0 {
        0
    } else {
        let rest = outcomes.drop_last();
        let brought = duty_after(duty, rest) == Duty::Poll && outcomes.last() == Outcome::Workload(true);
        workloads_polled(duty, rest) + if brought { 1nat } else { 0nat }
    }
}

/// How many executions are done, or have failed.
pub open spec fn executions_done(duty: Duty, outcomes: Seq<Outcome>) -> nat
    decreases outcomes.len(),
{
    if outcomes.len() == 0 {
        0
    } else {
        let rest = outcomes.drop_last();
        executions_done(duty, rest) + if duty_after(duty, rest) == Duty::Execute { 1nat } else { 0nat }
    }
}

/// Each workload that a poll brings is executed once, before anything else is
/// done: an execution comes exactly behind such a poll, and there are as many of
/// them as of such polls, but for one that is under way.
pub proof fn workloads_are_executed_once(outcomes: Seq<Outcome>)
    ensures
        workloads_polled(Duty::Register, outcomes) == executions_done(Duty::Register, outcomes) + if duty_after(
            Duty::Register,
            outcomes,
        ) == Duty::Execute {
            1int
        } else {
            0int
        },
        outcomes.len() > 0 ==> (duty_after(Duty::Register, outcomes) == Duty::Execute <==> {
            &&& duty_after(Duty::Register, outcomes.drop_last()) == Duty::Poll
            &&& outcomes.last() == Outcome::Workload(true)
        }),
    decreases outcomes.len(),
{
    if outcomes.len() > 0 {
        workloads_are_executed_once(outcomes.drop_last());
    }
}

/// The agent is nowhere found stopped.
pub open spec fn never_stopped(outcomes: Seq<Outcome>) -> bool {
    forall|i: int| 0 <= i < outcomes.len() ==> #[trigger] outcomes[i] != Outcome::Running(false)
}

/// While the agent is running it rests between any two polls.
pub proof fn polls_are_parted_by_a_rest(outcomes: Seq<Outcome>)
    requires
        outcomes.len() > 0,
        all_belong(Duty::Poll, outcomes),
        never_stopped(outcomes),
        duty_after(Duty::Poll, outcomes) == Duty::Poll,
    ensures
        exists|k: int|
            0 < k < outcomes.len() && #[trigger] duty_after(Duty::Poll, outcomes.take(k)) == Duty::Rest,
{
    let n = outcomes.len() as int;
    let last = duty_after(Duty::Poll, outcomes.take(n - 1));
    assert(outcomes.take(n - 1) =~= outcomes.drop_last());
    assert(outcomes[n - 1] != Outcome::Running(false));
    assert(last == Duty::LookBeforePoll);
    if n == 1 {
        assert(outcomes.take(0).len() == 0);
        assert(last == Duty::Poll);
    }
    let first = outcomes.take(n - 1);
    let before = duty_after(Duty::Poll, outcomes.take(n - 2));
    assert(first.drop_last() =~= outcomes.take(n - 2));
    assert(outcomes[n - 2] != Outcome::Running(false));
    lemma_never_registering(outcomes.take(n - 2));
    assert(belongs(before, outcomes[n - 2])) by {
        assert(all_belong(Duty::Poll, first));
        assert(first.last() == outcomes[n - 2]);
    }
    assert(before == Duty::Rest);
    if n == 2 {
        assert(outcomes.take(0).len() == 0);
        assert(before == Duty::Poll);
    }
}

proof fn lemma_never_registering(outcomes: Seq<Outcome>)
    ensures
        duty_after(Duty::Poll, outcomes) != Duty::Register,
    decreases outcomes.len(),
{
    if outcomes.len() > 0 {
        lemma_never_registering(outcomes.drop_last());
    }
}

} // verus!
