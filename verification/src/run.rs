//! The run of the collector as a function of the state it starts from, the
//! work it may spend, and what tracing gives for the payloads it traces.

use crate::flags::GcColor;
use crate::handle::indices_of;
use crate::state::{GcPhase, GcState};
use crate::tracer::GcObject;
use vstd::prelude::*;

verus! {

/// What tracing one payload gave.
pub struct TraceOutcome<T> {
    /// The payload as tracing left it.
    pub value: T,
    /// The slots that the reported handles name, in order.
    pub reported: Seq<usize>,
    /// Whether tracing went through.
    pub traced: bool,
}

/// What is left of a budget after a step; a budget of `None` is without
/// bound.
pub open spec fn spend(budget: Option<u64>, works: bool) -> Option<u64> {
    match budget {
        Some(work) => if works {
            Some((work - 1) as u64)
        } else {
            Some(work)
        },
        None => None,
    }
}

impl<T: GcObject> GcState<T> {
    /// Whether the next step traces a payload: it does while propagating,
    /// where the front of the gray queue is dark-gray or rooted.
    pub open spec fn step_traces(self) -> bool {
        self.phase == GcPhase::Propagating && self.gray.len() > 0 && (self.cell(
            self.gray[0] as int,
        ).color == GcColor::DarkGray || self.cell(self.gray[0] as int).root_count != 0)
    }

    /// The one step that the collector takes from a state in which it
    /// traces no payload: while propagating, it drops the front of the gray
    /// queue, or finds the queue empty and passes to the sweep; while
    /// sweeping, it visits the cell at the cursor, or finds the list at its
    /// end and goes to sleep.
    pub open spec fn after_calm_step(self) -> GcState<T> {
        match self.phase {
            GcPhase::Sleeping => self,
            GcPhase::Propagating => if self.gray.len() == 0 {
                self.after_begin_sweep()
            } else {
                self.after_skip()
            },
            GcPhase::Sweeping => if self.sweep is Some {
                self.after_sweep_visit()
            } else {
                self.after_end_sweep()
            },
        }
    }

    /// The state after one step, where `outcome` is what tracing gives if
    /// the step traces: the front of the gray queue holds the payload that
    /// tracing left, is taken off the queue and settled.
    pub open spec fn after_step(self, outcome: TraceOutcome<T>) -> GcState<T> {
        if self.step_traces() {
            self.after_replace(self.gray[0], outcome.value).dequeue().after_traced(
                self.gray[0],
                outcome.reported,
                outcome.traced,
            )
        } else {
            self.after_calm_step()
        }
    }

    /// Whether the step spends a unit of work: it does when it paints a
    /// cell black or frees one.
    pub open spec fn step_works(self, outcome: TraceOutcome<T>) -> bool {
        if self.step_traces() {
            outcome.traced
        } else {
            self.phase == GcPhase::Sweeping && self.sweep is Some && self.cell(
                self.sweep->0 as int,
            ).color == GcColor::White
        }
    }

    /// Whether the step leaves the gray queue stalled: the cell it traced
    /// was blocked, and so were as many cells in a row as the queue holds.
    pub open spec fn step_stalls(self, blocked: usize, outcome: TraceOutcome<T>) -> bool {
        self.step_traces() && !outcome.traced && blocked + 1 >= self.after_step(
            outcome,
        ).gray.len()
    }

    /// The number of cells blocked in a row after the step. A patient run
    /// starts counting anew at a stalled queue.
    pub open spec fn blocked_after(
        self,
        blocked: usize,
        outcome: TraceOutcome<T>,
        patient: bool,
    ) -> usize {
        if !self.step_traces() {
            blocked
        } else if outcome.traced || (patient && self.step_stalls(blocked, outcome)) {
            0
        } else {
            (blocked + 1) as usize
        }
    }

    /// Whether `outcome` is what tracing the front of the gray queue can
    /// give: what is reported is held by the payload; tracing goes through
    /// exactly when the payload has no refusal left, and then all that the
    /// payload holds is reported, in order; a refusal leaves the payload
    /// with fewer refusals; and the payload holds afterwards what it held
    /// before.
    pub open spec fn admits_outcome(self, outcome: TraceOutcome<T>) -> bool {
        let front = self.gray[0] as int;
        &&& forall|m: int|
            0 <= m < outcome.reported.len() ==> self.points_to(
                front,
                #[trigger] outcome.reported[m] as int,
            )
        &&& outcome.traced ==> outcome.reported == indices_of(self.children(front))
        &&& outcome.traced <==> self.cell(front).value.refusals() == 0
        &&& !outcome.traced ==> outcome.value.refusals() < self.cell(front).value.refusals()
        &&& outcome.value.children() == self.children(front)
    }

    /// The state in which a run ends, and what is left of its budget. The
    /// run starts with `blocked` cells blocked in a row and takes what
    /// tracing gives from `outcomes`, one for each payload it traces. It
    /// steps until the budget is spent or the collector is asleep; a run
    /// that is not patient also ends where the gray queue is stalled.
    pub open spec fn after_run(
        self,
        budget: Option<u64>,
        blocked: usize,
        outcomes: Seq<TraceOutcome<T>>,
        patient: bool,
    ) -> (GcState<T>, Option<u64>)
        decreases self.rank(), self.backlog(), self.queued(), self.refusals_left(), self.slack(
            blocked,
        ),
    {
        if budget == Some(0u64) || self.phase == GcPhase::Sleeping || (self.step_traces()
            && outcomes.len() == 0) {
            (self, budget)
        } else {
            let outcome = if self.step_traces() {
                outcomes[0]
            } else {
                arbitrary()
            };
            let rest = if self.step_traces() {
                outcomes.drop_first()
            } else {
                outcomes
            };
            let next = self.after_step(outcome);
            let next_blocked = self.blocked_after(blocked, outcome, patient);
            if self.step_stalls(blocked, outcome) && !patient {
                (next, budget)
            } else if self.nearer(blocked, next, next_blocked) {
                next.after_run(
                    spend(budget, self.step_works(outcome)),
                    next_blocked,
                    rest,
                    patient,
                )
            } else {
                (self, budget)
            }
        }
    }

    /// Whether `outcomes` is what tracing can give in the run from this
    /// state, no more and no less: the run traces as many payloads as there
    /// are outcomes, and each outcome is one that the payload it stands for
    /// can give.
    pub open spec fn run_admits(
        self,
        budget: Option<u64>,
        blocked: usize,
        outcomes: Seq<TraceOutcome<T>>,
        patient: bool,
    ) -> bool
        decreases self.rank(), self.backlog(), self.queued(), self.refusals_left(), self.slack(
            blocked,
        ),
    {
        if budget == Some(0u64) || self.phase == GcPhase::Sleeping || (self.step_traces()
            && outcomes.len() == 0) {
            outcomes.len() == 0 && !(budget != Some(0u64) && self.step_traces())
        } else {
            let outcome = if self.step_traces() {
                outcomes[0]
            } else {
                arbitrary()
            };
            let rest = if self.step_traces() {
                outcomes.drop_first()
            } else {
                outcomes
            };
            let next = self.after_step(outcome);
            let next_blocked = self.blocked_after(blocked, outcome, patient);
            (self.step_traces() ==> self.admits_outcome(outcome)) && if self.step_stalls(
                blocked,
                outcome,
            ) && !patient {
                rest.len() == 0
            } else if self.nearer(blocked, next, next_blocked) {
                next.run_admits(
                    spend(budget, self.step_works(outcome)),
                    next_blocked,
                    rest,
                    patient,
                )
            } else {
                false
            }
        }
    }

    /// A run with the given budget from this state ends in `other` with
    /// `left` of the budget, for some outcomes that tracing can give.
    pub open spec fn runs_to(
        self,
        budget: Option<u64>,
        patient: bool,
        other: GcState<T>,
        left: Option<u64>,
    ) -> bool {
        exists|outcomes: Seq<TraceOutcome<T>>|
            #![trigger self.after_run(budget, 0, outcomes, patient)]
            self.after_run(budget, 0, outcomes, patient) == (other, left) && self.run_admits(
                budget,
                0,
                outcomes,
                patient,
            )
    }

    /// A run from this state with `budget`, having taken `log` from tracing,
    /// has come to `other` with `left` and `blocked`: whatever tracing gives
    /// from here on, the two runs end alike.
    pub open spec fn run_continues(
        self,
        budget: Option<u64>,
        patient: bool,
        log: Seq<TraceOutcome<T>>,
        other: GcState<T>,
        left: Option<u64>,
        blocked: usize,
    ) -> bool {
        forall|rest: Seq<TraceOutcome<T>>|
            #![trigger other.after_run(left, blocked, rest, patient)]
            #![trigger other.run_admits(left, blocked, rest, patient)]
            self.after_run(budget, 0, log + rest, patient) == other.after_run(
                left,
                blocked,
                rest,
                patient,
            ) && self.run_admits(budget, 0, log + rest, patient) == other.run_admits(
                left,
                blocked,
                rest,
                patient,
            )
    }
}

/// A run from a state that is asleep, or with nothing to spend, ends where
/// it starts, and traces nothing.
pub proof fn lemma_run_ends<T: GcObject>(
    s: GcState<T>,
    budget: Option<u64>,
    blocked: usize,
    outcomes: Seq<TraceOutcome<T>>,
    patient: bool,
)
    requires
        budget == Some(0u64) || s.phase == GcPhase::Sleeping,
    ensures
        s.after_run(budget, blocked, outcomes, patient) == (s, budget),
        s.run_admits(budget, blocked, outcomes, patient) == (outcomes.len() == 0),
{
}

/// A run takes its first step and goes on from there.
pub proof fn lemma_run_steps<T: GcObject>(
    s: GcState<T>,
    budget: Option<u64>,
    blocked: usize,
    outcome: TraceOutcome<T>,
    rest: Seq<TraceOutcome<T>>,
    patient: bool,
)
    requires
        budget != Some(0u64),
        s.phase != GcPhase::Sleeping,
        s.step_traces() ==> s.admits_outcome(outcome),
        s.nearer(blocked, s.after_step(outcome), s.blocked_after(blocked, outcome, patient)),
    ensures
        ({
            let outcomes = if s.step_traces() {
                seq![outcome] + rest
            } else {
                rest
            };
            let next = s.after_step(outcome);
            let left = spend(budget, s.step_works(outcome));
            let next_blocked = s.blocked_after(blocked, outcome, patient);
            if s.step_stalls(blocked, outcome) && !patient {
                &&& s.after_run(budget, blocked, outcomes, patient) == (next, budget)
                &&& s.run_admits(budget, blocked, outcomes, patient) == (rest.len() == 0)
            } else {
                &&& s.after_run(budget, blocked, outcomes, patient) == next.after_run(
                    left,
                    next_blocked,
                    rest,
                    patient,
                )
                &&& s.run_admits(budget, blocked, outcomes, patient) == next.run_admits(
                    left,
                    next_blocked,
                    rest,
                    patient,
                )
            }
        }),
{
    if s.step_traces() {
        let outcomes = seq![outcome] + rest;
        assert(outcomes[0] == outcome);
        assert(outcomes.drop_first() =~= rest);
    } else {
        let idle: TraceOutcome<T> = arbitrary();
        assert(s.after_step(idle) == s.after_step(outcome));
        assert(s.step_works(idle) == s.step_works(outcome));
        assert(s.blocked_after(blocked, idle, patient) == s.blocked_after(
            blocked,
            outcome,
            patient,
        ));
        assert(!s.step_stalls(blocked, idle));
    }
}

/// A run that has not begun continues from where it starts.
pub proof fn lemma_run_begins<T: GcObject>(s: GcState<T>, budget: Option<u64>, patient: bool)
    ensures
        s.run_continues(budget, patient, Seq::empty(), s, budget, 0),
{
    assert forall|rest: Seq<TraceOutcome<T>>|
        #![trigger s.after_run(budget, 0, rest, patient)]
        #![trigger s.run_admits(budget, 0, rest, patient)]
        s.after_run(budget, 0, Seq::empty() + rest, patient) == s.after_run(
            budget,
            0,
            rest,
            patient,
        ) && s.run_admits(budget, 0, Seq::empty() + rest, patient) == s.run_admits(
            budget,
            0,
            rest,
            patient,
        ) by {
        assert(Seq::<TraceOutcome<T>>::empty() + rest =~= rest);
    }
}

/// A run that has come to a state that is asleep, or has nothing left to
/// spend, ends there, having traced what is in its log.
pub proof fn lemma_run_done<T: GcObject>(
    s: GcState<T>,
    budget: Option<u64>,
    patient: bool,
    log: Seq<TraceOutcome<T>>,
    t: GcState<T>,
    left: Option<u64>,
    blocked: usize,
)
    requires
        s.run_continues(budget, patient, log, t, left, blocked),
        left == Some(0u64) || t.phase == GcPhase::Sleeping,
    ensures
        s.after_run(budget, 0, log, patient) == (t, left),
        s.run_admits(budget, 0, log, patient),
{
    let none = Seq::<TraceOutcome<T>>::empty();
    lemma_run_ends(t, left, blocked, none, patient);
    assert(log + none =~= log);
    assert(s.after_run(budget, 0, log + none, patient) == t.after_run(
        left,
        blocked,
        none,
        patient,
    ));
    assert(s.run_admits(budget, 0, log + none, patient) == t.run_admits(
        left,
        blocked,
        none,
        patient,
    ));
}

/// A run that has come to a state goes on by the step from that state; one
/// that is not patient ends with the step where it leaves the gray queue
/// stalled.
pub proof fn lemma_run_goes_on<T: GcObject>(
    s: GcState<T>,
    budget: Option<u64>,
    patient: bool,
    log: Seq<TraceOutcome<T>>,
    t: GcState<T>,
    left: Option<u64>,
    blocked: usize,
    outcome: TraceOutcome<T>,
)
    requires
        s.run_continues(budget, patient, log, t, left, blocked),
        left != Some(0u64),
        t.phase != GcPhase::Sleeping,
        t.step_traces() ==> t.admits_outcome(outcome),
        t.nearer(blocked, t.after_step(outcome), t.blocked_after(blocked, outcome, patient)),
    ensures
        ({
            let longer = if t.step_traces() {
                log.push(outcome)
            } else {
                log
            };
            if t.step_stalls(blocked, outcome) && !patient {
                s.after_run(budget, 0, longer, patient) == (t.after_step(outcome), left)
                    && s.run_admits(budget, 0, longer, patient)
            } else {
                s.run_continues(
                    budget,
                    patient,
                    longer,
                    t.after_step(outcome),
                    spend(left, t.step_works(outcome)),
                    t.blocked_after(blocked, outcome, patient),
                )
            }
        }),
{
    let longer = if t.step_traces() {
        log.push(outcome)
    } else {
        log
    };
    if t.step_stalls(blocked, outcome) && !patient {
        let none = Seq::<TraceOutcome<T>>::empty();
        lemma_run_steps(t, left, blocked, outcome, none, patient);
        assert(seq![outcome] + none =~= seq![outcome]);
        assert(log + seq![outcome] =~= longer);
        assert(s.after_run(budget, 0, log + seq![outcome], patient) == t.after_run(
            left,
            blocked,
            seq![outcome],
            patient,
        ));
        assert(s.run_admits(budget, 0, log + seq![outcome], patient) == t.run_admits(
            left,
            blocked,
            seq![outcome],
            patient,
        ));
    } else {
        let next = t.after_step(outcome);
        let next_left = spend(left, t.step_works(outcome));
        let next_blocked = t.blocked_after(blocked, outcome, patient);
        assert forall|rest: Seq<TraceOutcome<T>>|
            #![trigger next.after_run(next_left, next_blocked, rest, patient)]
            #![trigger next.run_admits(next_left, next_blocked, rest, patient)]
            s.after_run(budget, 0, longer + rest, patient) == next.after_run(
                next_left,
                next_blocked,
                rest,
                patient,
            ) && s.run_admits(budget, 0, longer + rest, patient) == next.run_admits(
                next_left,
                next_blocked,
                rest,
                patient,
            ) by {
            lemma_run_steps(t, left, blocked, outcome, rest, patient);
            if t.step_traces() {
                assert(longer + rest =~= log + (seq![outcome] + rest));
                assert(s.after_run(budget, 0, log + (seq![outcome] + rest), patient)
                    == t.after_run(left, blocked, seq![outcome] + rest, patient));
                assert(s.run_admits(budget, 0, log + (seq![outcome] + rest), patient)
                    == t.run_admits(left, blocked, seq![outcome] + rest, patient));
            } else {
                assert(s.after_run(budget, 0, log + rest, patient) == t.after_run(
                    left,
                    blocked,
                    rest,
                    patient,
                ));
                assert(s.run_admits(budget, 0, log + rest, patient) == t.run_admits(
                    left,
                    blocked,
                    rest,
                    patient,
                ));
            }
        }
    }
}

} // verus!
